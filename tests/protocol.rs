use minihf_api::codec::{RESP_ACK, RESP_NACK};
use minihf_api::framer::{extract_reply, frame_packet, resolve_frame, unwrap_frame, wrap};
use minihf_api::{base_freq_from_reply, build_packet, parse_packet, MiniHF, MiniHFError, RtcTime};

fn response(ptype: u8, id: u16, payload: &[u8]) -> Vec<u8> {
    frame_packet(ptype, id, payload).unwrap()
}

fn strip(frame: &[u8]) -> &[u8] {
    &frame[..frame.len() - 1]
}

#[test]
fn build_packet_layout_and_checksum() {
    assert_eq!(build_packet(1, 1, &[]).unwrap(), vec![170, 1, 1, 0, 0, 11, 224]);
    assert_eq!(
        build_packet(2, 0x0102, &[0, 1, 2]).unwrap(),
        vec![170, 2, 2, 1, 3, 0, 1, 2, 111, 112]
    );
}

#[test]
fn frame_packet_stuffs_and_delimits() {
    let f = frame_packet(1, 1, &[]).unwrap();
    assert_eq!(f, vec![4, 170, 1, 1, 1, 3, 11, 224, 0]);
    let f = frame_packet(2, 0x0102, &[0, 1, 2]).unwrap();
    assert_eq!(f, vec![6, 170, 2, 2, 1, 3, 5, 1, 2, 111, 112, 0]);
    assert_eq!(f.iter().filter(|&&b| b == 0).count(), 1);
    assert_eq!(*f.last().unwrap(), 0);
}

#[test]
fn wrap_then_unwrap_restores_bytes() {
    let raw = vec![0u8, 0, 5, 0, 255, 1];
    let f = wrap(&raw);
    assert_ne!(strip(&f), &raw[..]);
    assert!(!strip(&f).contains(&0));
    assert_eq!(unwrap_frame(strip(&f)).unwrap(), raw);
}

#[test]
fn round_trip_through_frame() {
    let long: Vec<u8> = (0..255u32).map(|i| (i % 7) as u8).collect();
    let cases: Vec<(u8, u16, Vec<u8>)> = vec![
        (0, 0, vec![]),
        (0x01, 1, vec![0]),
        (0xFE, 0xFFFF, vec![1, 2, 3, 0, 0]),
        (0x7F, 0x1234, long),
    ];
    for (cmd, id, payload) in cases {
        let f = frame_packet(cmd, id, &payload).unwrap();
        let raw = unwrap_frame(strip(&f)).unwrap();
        let p = parse_packet(&raw).unwrap();
        assert_eq!(p.ptype, cmd);
        assert_eq!(p.id, id);
        assert_eq!(p.payload, payload);
    }
}

#[test]
fn flipped_checksum_bit_is_rejected() {
    let raw = build_packet(3, 9, &[1, 2, 3, 4]).unwrap();
    let n = raw.len();
    for k in [n - 2, n - 1] {
        for bit in 0..8 {
            let mut bad = raw.clone();
            bad[k] ^= 1 << bit;
            assert!(parse_packet(&bad).is_none());
        }
    }
}

#[test]
fn flipped_payload_bit_is_rejected() {
    let raw = build_packet(3, 9, &[1, 2, 3, 4]).unwrap();
    for k in 5..9 {
        for bit in 0..8 {
            let mut bad = raw.clone();
            bad[k] ^= 1 << bit;
            assert!(parse_packet(&bad).is_none());
        }
    }
}

#[test]
fn parse_rejects_short_bad_sync_and_truncated() {
    assert!(parse_packet(&[]).is_none());
    assert!(parse_packet(&[170, 1, 1, 0, 0, 11]).is_none());
    assert!(parse_packet(&[171, 1, 1, 0, 0, 11, 224]).is_none());
    let raw = build_packet(1, 1, &[5, 6]).unwrap();
    assert!(parse_packet(&raw[..raw.len() - 1]).is_none());
    let mut longer = raw.clone();
    longer.push(42);
    assert_eq!(parse_packet(&longer).unwrap().payload, vec![5, 6]);
}

#[test]
fn oversized_payload_is_refused() {
    let big = vec![1u8; 256];
    assert!(matches!(build_packet(1, 1, &big), Err(MiniHFError::InvalidArgument(_))));
    assert!(matches!(frame_packet(1, 1, &big), Err(MiniHFError::InvalidArgument(_))));
    let mut hf = MiniHF::open(100);
    assert!(matches!(hf.transact(1, big.clone()), Err(MiniHFError::InvalidArgument(_))));
    assert!(matches!(hf.send_only(1, big), Err(MiniHFError::InvalidArgument(_))));
    // no sequence id was used up
    assert_eq!(hf.transact(1, vec![]).unwrap().id, 1);
    assert!(build_packet(1, 1, &vec![0u8; 255]).is_ok());
}

#[test]
fn fragmented_response_resolves_once() {
    let payload = vec![0u8, 1, 0, 2, 0, 3];
    let mut reference = MiniHF::open(100);
    let req = reference.transact(2, vec![]).unwrap();
    let frame = response(RESP_ACK, req.id, &payload);
    let whole = reference.receive(req.id, &frame);
    assert_eq!(whole.unwrap().unwrap(), payload);

    for cut in 0..frame.len() {
        let mut hf = MiniHF::open(100);
        let req = hf.transact(2, vec![]).unwrap();
        assert!(hf.receive(req.id, &frame[..cut]).is_none());
        assert_eq!(hf.receive(req.id, &frame[cut..]).unwrap().unwrap(), payload);
        assert!(hf.pending_bytes().is_empty());
    }

    let mut hf = MiniHF::open(100);
    let req = hf.transact(2, vec![]).unwrap();
    let mut got = Vec::new();
    for b in &frame {
        if let Some(r) = hf.receive(req.id, &[*b]) {
            got.push(r);
        }
    }
    assert_eq!(got.len(), 1);
    assert_eq!(got[0].as_ref().unwrap(), &payload);
}

#[test]
fn stale_packet_is_skipped() {
    let mut hf = MiniHF::open(100);
    let req = hf.transact(4, vec![]).unwrap();
    let mut chunk = response(RESP_ACK, req.id.wrapping_add(5), &[9, 9]);
    assert!(hf.receive(req.id, &chunk).is_none());
    chunk = response(RESP_NACK, 0, &[]);
    chunk.extend(response(RESP_ACK, req.id, &[7, 7, 7]));
    chunk.extend(vec![3, 4]);
    assert_eq!(hf.receive(req.id, &chunk).unwrap().unwrap(), vec![7, 7, 7]);
    assert_eq!(hf.pending_bytes(), &[3, 4]);
}

#[test]
fn noise_between_frames_is_absorbed() {
    let mut hf = MiniHF::open(100);
    let req = hf.transact(4, vec![]).unwrap();
    let mut chunk = vec![0, 0, 5, 1, 0, 1, 2, 3, 0];
    chunk.extend(response(RESP_ACK, req.id, &[]));
    assert_eq!(hf.receive(req.id, &chunk).unwrap().unwrap(), Vec::<u8>::new());
}

#[test]
fn back_to_back_frames_leave_the_rest_buffered() {
    let mut buf = response(RESP_ACK, 1, &[1]);
    let second = response(RESP_ACK, 2, &[2]);
    buf.extend(second.clone());
    assert_eq!(extract_reply(&mut buf, 1).unwrap().unwrap(), vec![1]);
    assert_eq!(buf, second);
    assert_eq!(extract_reply(&mut buf, 2).unwrap().unwrap(), vec![2]);
    assert!(buf.is_empty());
}

#[test]
fn timeout_clears_the_buffer() {
    let mut hf = MiniHF::open(50);
    let req = hf.transact(2, vec![]).unwrap();
    assert_eq!(hf.time_left(0).unwrap(), 50);
    assert_eq!(hf.time_left(20).unwrap(), 30);
    let frame = response(RESP_ACK, req.id, &[1]);
    assert!(hf.receive(req.id, &frame[..3]).is_none());
    assert_eq!(hf.pending_bytes().len(), 3);
    assert!(matches!(hf.time_left(50), Err(MiniHFError::Timeout)));
    assert!(hf.pending_bytes().is_empty());
    assert!(matches!(hf.time_left(80), Err(MiniHFError::Timeout)));
}

#[test]
fn nack_is_reported() {
    let mut hf = MiniHF::open(100);
    let req = hf.transact(3, vec![1]).unwrap();
    let frame = response(RESP_NACK, req.id, &[1, 2, 3]);
    assert!(matches!(hf.receive(req.id, &frame), Some(Err(MiniHFError::Nack))));
    assert!(matches!(resolve_frame(strip(&frame), req.id), Some(Err(MiniHFError::Nack))));
    assert!(resolve_frame(strip(&frame), req.id + 1).is_none());
}

#[test]
fn any_other_type_is_a_success() {
    let frame = response(0x42, 8, &[5]);
    assert_eq!(resolve_frame(strip(&frame), 8).unwrap().unwrap(), vec![5]);
    assert!(resolve_frame(&[], 8).is_none());
}

#[test]
fn base_freq_payload_is_scaled_integer() {
    let mut hf = MiniHF::open(100);
    let req = hf.set_base_freq_centihz(12345).unwrap();
    let raw = unwrap_frame(strip(&req.frame)).unwrap();
    let p = parse_packet(&raw).unwrap();
    assert_eq!(p.ptype, 0x03);
    assert_eq!(p.payload, 12345u64.to_le_bytes().to_vec());
    assert_eq!(base_freq_from_reply(&12345u64.to_le_bytes()).unwrap(), 12345);
    assert_eq!(base_freq_from_reply(&12345u64.to_le_bytes()).unwrap() as f64 / 100.0, 123.45);
    assert!(matches!(base_freq_from_reply(&[1, 2, 3]), Err(MiniHFError::InvalidPacket)));
    let req = hf.get_base_freq_centihz().unwrap();
    let p = parse_packet(&unwrap_frame(strip(&req.frame)).unwrap()).unwrap();
    assert_eq!((p.ptype, p.payload.len()), (0x04, 0));
}

#[test]
fn rtc_payload_and_reply() {
    let t = RtcTime { year: 2024, month: 5, day: 17, hour: 13, minute: 45, second: 59 };
    let mut hf = MiniHF::open(100);
    let req = hf.set_rtc_time(t).unwrap();
    let p = parse_packet(&unwrap_frame(strip(&req.frame)).unwrap()).unwrap();
    assert_eq!(p.ptype, 0x01);
    assert_eq!(p.payload, vec![0xE8, 0x07, 5, 17, 13, 45, 59]);
    assert_eq!(RtcTime::from_reply(&p.payload).unwrap(), t);
    assert!(matches!(RtcTime::from_reply(&[1, 2, 3, 4, 5, 6]), Err(MiniHFError::InvalidPacket)));
    let req = hf.get_rtc_time().unwrap();
    let p = parse_packet(&unwrap_frame(strip(&req.frame)).unwrap()).unwrap();
    assert_eq!((p.ptype, p.id), (0x02, 2));
}

#[test]
fn reset_is_framed_without_waiting() {
    let mut hf = MiniHF::open(100);
    let f = hf.reset().unwrap();
    let p = parse_packet(&unwrap_frame(strip(&f)).unwrap()).unwrap();
    assert_eq!((p.ptype, p.id, p.payload.len()), (0xFD, 1, 0));
}

#[test]
fn closed_connection_refuses_work() {
    let mut hf = MiniHF::open(100);
    let req = hf.transact(2, vec![]).unwrap();
    let frame = response(RESP_ACK, req.id, &[1]);
    assert!(hf.receive(req.id, &frame[..2]).is_none());
    assert!(hf.is_open());
    assert!(hf.close().is_ok());
    assert!(!hf.is_open());
    assert!(hf.pending_bytes().is_empty());
    assert!(matches!(hf.transact(2, vec![]), Err(MiniHFError::PortClosed)));
    assert!(matches!(hf.reset(), Err(MiniHFError::PortClosed)));
    assert!(hf.close().is_ok());
    assert_eq!(hf.timeout_ms(), 100);
}

#[test]
fn sequence_ids_increase_and_wrap() {
    let mut hf = MiniHF::open(100);
    assert_eq!(hf.transact(1, vec![]).unwrap().id, 1);
    assert_eq!(hf.transact(1, vec![]).unwrap().id, 2);
    for _ in 3..=65535u32 {
        hf.send_only(1, vec![]).unwrap();
    }
    assert_eq!(hf.transact(1, vec![]).unwrap().id, 1);
}

#[test]
fn empty_input_wraps_to_a_bare_delimiter() {
    assert_eq!(wrap(&[]), vec![0]);
    assert!(unwrap_frame(&[]).is_none());
}

#[test]
fn frame_length_stays_within_overhead() {
    for n in [0usize, 1, 100, 246, 247, 255] {
        let payload = vec![7u8; n];
        let f = frame_packet(1, 2, &payload).unwrap();
        assert!(n + 9 <= f.len() && f.len() <= n + 10);
    }
}
