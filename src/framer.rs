use vstd::prelude::*;

use crate::codec::{build_packet, parse_packet, parse_spec, packet_bytes, lemma_parse_packet_bytes, MAX_PAYLOAD, RESP_NACK};
use crate::error::MiniHFError;

verus! {

/// The consistent-overhead byte stuffing of a byte string.
pub uninterp spec fn cobs_encoding(raw: Seq<u8>) -> Seq<u8>;

/// What reversing the byte stuffing gives back, or `None` where the input is
/// malformed.
pub uninterp spec fn cobs_decoding(encoded: Seq<u8>) -> Option<Seq<u8>>;

/// No byte of `s` is the frame delimiter.
pub open spec fn zero_free(s: Seq<u8>) -> bool {
    forall|i: int| 0 <= i < s.len() ==> s[i] != 0
}

/// The bound that `cobs::max_encoding_length` gives on the stuffed length:
/// one code byte per started run of 254 bytes.
#[verifier::opaque]
pub open spec fn max_encoded_len(n: nat) -> nat {
    n + n / 254 + if n % 254 > 0 { 1nat } else { 0nat }
}

/// Relies on `cobs::encode_vec`: it stuffs the input so that no zero byte is
/// left, within `cobs::max_encoding_length` bytes, one code byte ahead of the
/// data; an empty input gives an empty output. `cobs::decode_vec` restores a
/// non-empty input from what it returns.
#[verifier::external_body]
fn cobs_encode(raw: &[u8]) -> (r: Vec<u8>)
    ensures
        r@ == cobs_encoding(raw@),
        raw@.len() > 0 ==> r@.len() > raw@.len(),
        r@.len() <= max_encoded_len(raw@.len()),
        zero_free(r@),
        raw@.len() > 0 ==> cobs_decoding(r@) == Some(raw@),
{
    cobs::encode_vec(raw)
}

/// Relies on `cobs::decode_vec`: it reverses the byte stuffing or reports a
/// malformed input.
#[verifier::external_body]
fn cobs_decode(encoded: &[u8]) -> (r: Option<Vec<u8>>)
    ensures
        match r {
            Some(d) => cobs_decoding(encoded@) == Some(d@),
            None => cobs_decoding(encoded@) is None,
        },
{
    cobs::decode_vec(encoded).ok()
}

/// `f` is the frame of `raw`: its stuffed bytes, which hold no zero and,
/// for a non-empty `raw`, unstuff back to it; then a single zero delimiter.
pub open spec fn is_frame(f: Seq<u8>, raw: Seq<u8>) -> bool {
    &&& f.len() > 0
    &&& f.last() == 0
    &&& f.drop_last() == cobs_encoding(raw)
    &&& raw.len() > 0 ==> f.drop_last().len() > raw.len()
    &&& f.drop_last().len() <= max_encoded_len(raw.len())
    &&& zero_free(f.drop_last())
    &&& raw.len() > 0 ==> cobs_decoding(f.drop_last()) == Some(raw)
}

/// Wraps a raw packet into a self-delimiting frame.
pub fn wrap(raw: &[u8]) -> (r: Vec<u8>)
    ensures
        is_frame(r@, raw@),
{
    let mut encoded = cobs_encode(raw);
    let ghost e = encoded@;
    encoded.push(0u8);
    assert(encoded@.drop_last() =~= e);
    encoded
}

proof fn lemma_encoded_len_small(m: nat)
    requires
        m <= 262,
    ensures
        max_encoded_len(m) <= m + 2,
{
    reveal(max_encoded_len);
    assert(m / 254 <= 1);
}

/// Builds the packet of a command and wraps it into a frame, ready to write.
/// Unwrapping the frame and parsing the packet gives the command back.
pub fn frame_packet(cmd_id: u8, pkt_id: u16, payload: &[u8]) -> (r: Result<Vec<u8>, MiniHFError>)
    ensures
        payload@.len() <= MAX_PAYLOAD ==> {
            &&& r is Ok
            &&& is_frame(r->Ok_0@, packet_bytes(cmd_id, pkt_id, payload@))
            &&& payload@.len() + 9 <= r->Ok_0@.len() <= payload@.len() + 10
            &&& cobs_decoding(r->Ok_0@.drop_last()) is Some
            &&& parse_spec(cobs_decoding(r->Ok_0@.drop_last())->Some_0) == Some((cmd_id, pkt_id, payload@))
        },
        payload@.len() > MAX_PAYLOAD ==> r matches Err(MiniHFError::InvalidArgument(_)),
{
    let raw = build_packet(cmd_id, pkt_id, payload)?;
    proof {
        lemma_parse_packet_bytes(cmd_id, pkt_id, payload@);
        assert(raw@.len() == payload@.len() + 7);
        lemma_encoded_len_small(raw@.len());
    }
    let f = wrap(raw.as_slice());
    assert(f@.len() == f@.drop_last().len() + 1);
    Ok(f)
}

/// Reverses the byte stuffing of one frame, given without its delimiter;
/// `None` where the stuffing is malformed.
pub fn unwrap_frame(encoded: &[u8]) -> (r: Option<Vec<u8>>)
    ensures
        match r {
            Some(d) => cobs_decoding(encoded@) == Some(d@),
            None => cobs_decoding(encoded@) is None,
        },
{
    cobs_decode(encoded)
}

/// How one delimited candidate frame bears on the transaction with sequence
/// id `id`: `None` to skip it, `Some(Ok(payload))` for the matching response,
/// `Some(Err(()))` for a matching rejection.
pub open spec fn resolve_spec(frame: Seq<u8>, id: u16) -> Option<Result<Seq<u8>, ()>> {
    if frame.len() == 0 {
        None
    } else {
        match cobs_decoding(frame) {
            None => None,
            Some(raw) => match parse_spec(raw) {
                None => None,
                Some((ptype, pkt_id, payload)) => if pkt_id != id {
                    None
                } else if ptype == RESP_NACK {
                    Some(Err(()))
                } else {
                    Some(Ok(payload))
                },
            },
        }
    }
}

/// Scans `rest` with `cur` the bytes of a frame begun before it: the first
/// frame that resolves, and what follows it; or `None`, and the bytes after
/// the last delimiter.
pub open spec fn scan_from(cur: Seq<u8>, rest: Seq<u8>, id: u16) -> (Option<Result<Seq<u8>, ()>>, Seq<u8>)
    decreases rest.len(),
{
    if rest.len() == 0 {
        (None, cur)
    } else if rest[0] == 0 {
        let r = resolve_spec(cur, id);
        if r is Some {
            (r, rest.drop_first())
        } else {
            scan_from(Seq::empty(), rest.drop_first(), id)
        }
    } else {
        scan_from(cur.push(rest[0]), rest.drop_first(), id)
    }
}

/// The outcome of scanning a receive buffer for the response to `id`, and
/// the buffer that is left.
pub open spec fn scan(buf: Seq<u8>, id: u16) -> (Option<Result<Seq<u8>, ()>>, Seq<u8>) {
    scan_from(Seq::empty(), buf, id)
}

/// `r` is the executable form of the spec outcome `s`.
pub open spec fn reply_matches(r: Option<Result<Vec<u8>, MiniHFError>>, s: Option<Result<Seq<u8>, ()>>) -> bool {
    match s {
        None => r is None,
        Some(Ok(p)) => r matches Some(Ok(v)) && v@ == p,
        Some(Err(_)) => r matches Some(Err(MiniHFError::Nack)),
    }
}

/// Unwraps one candidate frame (without its delimiter) and decides whether it
/// answers the transaction with sequence id `id`.
pub fn resolve_frame(frame: &[u8], id: u16) -> (r: Option<Result<Vec<u8>, MiniHFError>>)
    ensures
        reply_matches(r, resolve_spec(frame@, id)),
{
    if frame.len() == 0 {
        return None;
    }
    let decoded = match unwrap_frame(frame) {
        Some(d) => d,
        None => return None,
    };
    match parse_packet(decoded.as_slice()) {
        None => None,
        Some(pkt) => {
            if pkt.id != id {
                None
            } else if pkt.ptype == RESP_NACK {
                Some(Err(MiniHFError::Nack))
            } else {
                Some(Ok(pkt.payload))
            }
        },
    }
}

proof fn lemma_scan_zero_free(cur: Seq<u8>, w: Seq<u8>, y: Seq<u8>, id: u16)
    requires
        zero_free(w),
    ensures
        scan_from(cur, w.add(y), id) == scan_from(cur.add(w), y, id),
    decreases w.len(),
{
    if w.len() == 0 {
        assert(w.add(y) =~= y);
        assert(cur.add(w) =~= cur);
    } else {
        assert(w.add(y)[0] == w[0]);
        assert(w.add(y).drop_first() =~= w.drop_first().add(y));
        assert(cur.push(w[0]).add(w.drop_first()) =~= cur.add(w));
        lemma_scan_zero_free(cur.push(w[0]), w.drop_first(), y, id);
    }
}

proof fn lemma_scan_split(cur: Seq<u8>, x: Seq<u8>, y: Seq<u8>, id: u16)
    requires
        zero_free(cur),
        scan_from(cur, x, id).0 is None,
    ensures
        scan_from(cur, x.add(y), id) == scan(scan_from(cur, x, id).1.add(y), id),
    decreases x.len(),
{
    if x.len() == 0 {
        assert(x.add(y) =~= y);
        lemma_scan_zero_free(Seq::empty(), cur, y, id);
        assert(Seq::<u8>::empty().add(cur) =~= cur);
    } else {
        assert(x.add(y)[0] == x[0]);
        assert(x.add(y).drop_first() =~= x.drop_first().add(y));
        if x[0] == 0 {
            lemma_scan_split(Seq::empty(), x.drop_first(), y, id);
        } else {
            lemma_scan_split(cur.push(x[0]), x.drop_first(), y, id);
        }
    }
}

/// Fragmentation does not matter: where the bytes `a` added to the buffer
/// `s` resolve nothing, adding `b` to what is left gives the same outcome and
/// the same buffer as adding `a` and `b` in one piece.
pub proof fn lemma_fragmentation(s: Seq<u8>, a: Seq<u8>, b: Seq<u8>, id: u16)
    requires
        scan(s.add(a), id).0 is None,
    ensures
        scan(scan(s.add(a), id).1.add(b), id) == scan(s.add(a).add(b), id),
{
    lemma_scan_split(Seq::empty(), s.add(a), b, id);
}

/// Hands `chunks` one after another to the receive buffer `buf`, as a
/// transaction reads them, and stops at the first one that resolves.
pub open spec fn feed(buf: Seq<u8>, chunks: Seq<Seq<u8>>, id: u16) -> (Option<Result<Seq<u8>, ()>>, Seq<u8>)
    decreases chunks.len(),
{
    if chunks.len() == 0 {
        (None, buf)
    } else {
        let step = scan(buf.add(chunks[0]), id);
        if step.0 is Some {
            step
        } else {
            feed(step.1, chunks.drop_first(), id)
        }
    }
}

proof fn lemma_scan_resolved_prefix(cur: Seq<u8>, x: Seq<u8>, y: Seq<u8>, id: u16)
    requires
        scan_from(cur, x, id).0 is Some,
    ensures
        scan_from(cur, x.add(y), id) == (scan_from(cur, x, id).0, scan_from(cur, x, id).1.add(y)),
    decreases x.len(),
{
    assert(x.len() > 0);
    assert(x.add(y)[0] == x[0]);
    assert(x.add(y).drop_first() =~= x.drop_first().add(y));
    if x[0] == 0 {
        if resolve_spec(cur, id) is None {
            lemma_scan_resolved_prefix(Seq::empty(), x.drop_first(), y, id);
        }
    } else {
        lemma_scan_resolved_prefix(cur.push(x[0]), x.drop_first(), y, id);
    }
}

proof fn lemma_scan_leftover_zero_free(cur: Seq<u8>, x: Seq<u8>, id: u16)
    requires
        zero_free(cur),
        scan_from(cur, x, id).0 is None,
    ensures
        zero_free(scan_from(cur, x, id).1),
    decreases x.len(),
{
    if x.len() > 0 {
        if x[0] == 0 {
            lemma_scan_leftover_zero_free(Seq::empty(), x.drop_first(), id);
        } else {
            lemma_scan_leftover_zero_free(cur.push(x[0]), x.drop_first(), id);
        }
    }
}

/// Reading the bytes in pieces decides the transaction as reading them in
/// one piece does: from a buffer that holds no resolving frame, feeding
/// `chunks` one by one gives the outcome of scanning them all at once.
pub proof fn lemma_feed_as_one_chunk(s: Seq<u8>, chunks: Seq<Seq<u8>>, id: u16)
    requires
        scan(s, id).0 is None,
    ensures
        feed(s, chunks, id).0 == scan(s.add(chunks.flatten()), id).0,
    decreases chunks.len(),
{
    if chunks.len() == 0 {
        assert(s.add(chunks.flatten()) =~= s);
    } else {
        let c = chunks[0];
        let rest = chunks.drop_first();
        assert(s.add(chunks.flatten()) =~= s.add(c).add(rest.flatten()));
        let step = scan(s.add(c), id);
        if step.0 is Some {
            lemma_scan_resolved_prefix(Seq::empty(), s.add(c), rest.flatten(), id);
        } else {
            lemma_scan_leftover_zero_free(Seq::empty(), s.add(c), id);
            lemma_scan_zero_free(Seq::empty(), step.1, Seq::empty(), id);
            assert(step.1.add(Seq::<u8>::empty()) =~= step.1);
            assert(scan_from(Seq::<u8>::empty(), Seq::<u8>::empty(), id).0 is None);
            lemma_feed_as_one_chunk(step.1, rest, id);
            lemma_fragmentation(s, c, rest.flatten(), id);
        }
    }
}

proof fn lemma_frame_then(f: Seq<u8>, raw: Seq<u8>, tail: Seq<u8>, id: u16)
    requires
        is_frame(f, raw),
    ensures
        scan(f.add(tail), id) == if resolve_spec(f.drop_last(), id) is Some {
            (resolve_spec(f.drop_last(), id), tail)
        } else {
            scan(tail, id)
        },
{
    let w = f.drop_last();
    assert(f.add(tail) =~= w.add(seq![0u8].add(tail)));
    lemma_scan_zero_free(Seq::empty(), w, seq![0u8].add(tail), id);
    assert(Seq::<u8>::empty().add(w) =~= w);
    assert(seq![0u8].add(tail).drop_first() =~= tail);
}

/// A response frame split into any number of reads, starting from an empty
/// receive buffer, resolves to its payload, or to a rejection where the
/// device sent a NACK.
pub proof fn lemma_chunked_frame_resolves(chunks: Seq<Seq<u8>>, f: Seq<u8>, raw: Seq<u8>, id: u16)
    requires
        is_frame(f, raw),
        chunks.flatten() == f,
        parse_spec(raw) matches Some((_, pkt_id, _)) && pkt_id == id,
    ensures
        parse_spec(raw)->Some_0.0 == RESP_NACK ==> feed(Seq::empty(), chunks, id).0 == Some(
            Err::<Seq<u8>, ()>(()),
        ),
        parse_spec(raw)->Some_0.0 != RESP_NACK ==> feed(Seq::empty(), chunks, id).0 == Some(
            Ok::<Seq<u8>, ()>(parse_spec(raw)->Some_0.2),
        ),
{
    let e = Seq::<u8>::empty();
    assert(scan(e, id).0 is None);
    lemma_feed_as_one_chunk(e, chunks, id);
    assert(e.add(f) =~= f);
    assert(f.add(e) =~= f);
    lemma_frame_then(f, raw, e, id);
}

/// A stale packet ahead of the response, both split into any number of
/// reads from an empty receive buffer, is passed over: the transaction
/// resolves on the response.
pub proof fn lemma_chunked_stale_frame_skipped(
    chunks: Seq<Seq<u8>>,
    stale: Seq<u8>,
    stale_raw: Seq<u8>,
    reply: Seq<u8>,
    reply_raw: Seq<u8>,
    id: u16,
)
    requires
        is_frame(stale, stale_raw),
        is_frame(reply, reply_raw),
        chunks.flatten() == stale.add(reply),
        parse_spec(stale_raw) matches Some((_, stale_id, _)) && stale_id != id,
        parse_spec(reply_raw) matches Some((ptype, reply_id, _)) && reply_id == id && ptype != RESP_NACK,
    ensures
        feed(Seq::empty(), chunks, id).0 == Some(Ok::<Seq<u8>, ()>(parse_spec(reply_raw)->Some_0.2)),
{
    let e = Seq::<u8>::empty();
    assert(scan(e, id).0 is None);
    lemma_feed_as_one_chunk(e, chunks, id);
    assert(e.add(stale.add(reply)) =~= stale.add(reply).add(e));
    lemma_stale_frame_skipped(stale, stale_raw, reply, reply_raw, e, id);
}

/// Consumes delimited frames from the front of the receive buffer until one
/// answers the transaction with sequence id `id`. Frames that do not unwrap,
/// do not parse or carry another id are dropped. Bytes after the resolving
/// frame, or after the last delimiter, stay in the buffer.
pub fn extract_reply(buf: &mut Vec<u8>, id: u16) -> (r: Option<Result<Vec<u8>, MiniHFError>>)
    ensures
        reply_matches(r, scan(old(buf)@, id).0),
        final(buf)@ == scan(old(buf)@, id).1,
{
    let ghost whole = buf@;
    let mut start: usize = 0;
    let mut i: usize = 0;
    assert(whole.subrange(0, 0) =~= Seq::<u8>::empty());
    assert(whole.subrange(0, whole.len() as int) =~= whole);
    while i < buf.len()
        invariant
            buf@ == whole,
            whole == old(buf)@,
            start <= i <= whole.len(),
            zero_free(whole.subrange(start as int, i as int)),
            scan(whole, id) == scan_from(
                whole.subrange(start as int, i as int),
                whole.subrange(i as int, whole.len() as int),
                id,
            ),
        decreases whole.len() - i,
    {
        let ghost cur = whole.subrange(start as int, i as int);
        let ghost rest = whole.subrange(i as int, whole.len() as int);
        assert(rest[0] == whole[i as int]);
        assert(rest.drop_first() =~= whole.subrange(i + 1, whole.len() as int));
        if buf[i] == 0 {
            let frame = &buf[start..i];
            assert(frame@ == cur);
            let r = resolve_frame(frame, id);
            if r.is_some() {
                assert(resolve_spec(cur, id) is Some);
                assert(scan(whole, id) == (resolve_spec(cur, id), rest.drop_first()));
                let tail = buf.split_off(i + 1);
                *buf = tail;
                return r;
            }
            start = i + 1;
            assert(whole.subrange(start as int, start as int) =~= Seq::<u8>::empty());
        } else {
            assert(cur.push(whole[i as int]) =~= whole.subrange(start as int, i + 1));
        }
        i = i + 1;
    }
    assert(whole.subrange(i as int, whole.len() as int) =~= Seq::<u8>::empty());
    let tail = buf.split_off(start);
    *buf = tail;
    None
}

/// A well-formed packet with another sequence id, ahead of the response,
/// is passed over: the scan resolves on the response that follows it, and
/// leaves what comes after.
pub proof fn lemma_stale_frame_skipped(
    stale: Seq<u8>,
    stale_raw: Seq<u8>,
    reply: Seq<u8>,
    reply_raw: Seq<u8>,
    tail: Seq<u8>,
    id: u16,
)
    requires
        is_frame(stale, stale_raw),
        is_frame(reply, reply_raw),
        parse_spec(stale_raw) matches Some((_, stale_id, _)) && stale_id != id,
        parse_spec(reply_raw) matches Some((ptype, reply_id, _)) && reply_id == id && ptype != RESP_NACK,
    ensures
        scan(stale.add(reply).add(tail), id) == (Some(Ok::<Seq<u8>, ()>(parse_spec(reply_raw)->Some_0.2)), tail),
{
    let s1 = stale.drop_last();
    let s2 = reply.drop_last();
    let after = reply.add(tail);
    assert(stale.add(reply).add(tail) =~= s1.add(seq![0u8].add(after)));
    lemma_scan_zero_free(Seq::empty(), s1, seq![0u8].add(after), id);
    assert(Seq::<u8>::empty().add(s1) =~= s1);
    assert(seq![0u8].add(after).drop_first() =~= after);
    assert(resolve_spec(s1, id) is None);
    assert(scan(stale.add(reply).add(tail), id) == scan(after, id));
    assert(after =~= s2.add(seq![0u8].add(tail)));
    lemma_scan_zero_free(Seq::empty(), s2, seq![0u8].add(tail), id);
    assert(Seq::<u8>::empty().add(s2) =~= s2);
    assert(seq![0u8].add(tail).drop_first() =~= tail);
    assert(resolve_spec(s2, id) == Some(Ok::<Seq<u8>, ()>(parse_spec(reply_raw)->Some_0.2)));
}

} // verus!
