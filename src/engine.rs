use vstd::bytes::{spec_u64_from_le_bytes, spec_u64_to_le_bytes, u64_from_le_bytes, u64_to_le_bytes};
use vstd::prelude::*;

use crate::codec::{from_le16, le16, packet_bytes, MAX_PAYLOAD};
use crate::error::MiniHFError;
use crate::framer::{extract_reply, frame_packet, is_frame, reply_matches, scan};

verus! {

/// Command that sets the device's real-time clock.
pub const CMD_SET_RTC: u8 = 0x01;

/// Command that reads the device's real-time clock.
pub const CMD_GET_RTC: u8 = 0x02;

/// Command that sets the base frequency.
pub const CMD_SET_BASE_FREQ: u8 = 0x03;

/// Command that reads the base frequency.
pub const CMD_GET_BASE_FREQ: u8 = 0x04;

/// Command that resets the device; it sends no response.
pub const CMD_RESET: u8 = 0xFD;

/// The first sequence id handed out; zero stands for "no id yet".
pub const FIRST_ID: u16 = 1;

/// Bytes in the payload of a clock reading.
pub const RTC_PAYLOAD_LEN: usize = 7;

/// Bytes in the payload of a frequency.
pub const FREQ_PAYLOAD_LEN: usize = 8;

/// A date and time as the device's clock keeps it.
#[derive(Debug, Clone, Copy, PartialEq, Eq, Structural)]
pub struct RtcTime {
    pub year: u16,
    pub month: u8,
    pub day: u8,
    pub hour: u8,
    pub minute: u8,
    pub second: u8,
}

/// The wire form of a clock value: the year little-endian, then month, day,
/// hour, minute and second.
pub open spec fn rtc_payload(t: RtcTime) -> Seq<u8> {
    le16(t.year).add(seq![t.month, t.day, t.hour, t.minute, t.second])
}

/// The clock value at the front of a reply.
pub open spec fn rtc_from_bytes(s: Seq<u8>) -> RtcTime {
    RtcTime {
        year: from_le16(s[0], s[1]),
        month: s[2],
        day: s[3],
        hour: s[4],
        minute: s[5],
        second: s[6],
    }
}

impl RtcTime {
    /// Reads a clock value from the payload of a reply; a payload shorter
    /// than a clock value is an invalid packet. Extra bytes are ignored.
    pub fn from_reply(reply: &[u8]) -> (r: Result<RtcTime, MiniHFError>)
        ensures
            reply@.len() < RTC_PAYLOAD_LEN ==> r matches Err(MiniHFError::InvalidPacket),
            reply@.len() >= RTC_PAYLOAD_LEN ==> r == Ok::<RtcTime, MiniHFError>(rtc_from_bytes(reply@)),
    {
        if reply.len() < RTC_PAYLOAD_LEN {
            return Err(MiniHFError::InvalidPacket);
        }
        Ok(RtcTime {
            year: (reply[0] as u16) + (reply[1] as u16) * 256,
            month: reply[2],
            day: reply[3],
            hour: reply[4],
            minute: reply[5],
            second: reply[6],
        })
    }

    fn to_payload(&self) -> (r: Vec<u8>)
        ensures
            r@ == rtc_payload(*self),
    {
        let mut payload: Vec<u8> = Vec::new();
        payload.push((self.year % 256) as u8);
        payload.push((self.year / 256) as u8);
        payload.push(self.month);
        payload.push(self.day);
        payload.push(self.hour);
        payload.push(self.minute);
        payload.push(self.second);
        assert(payload@ =~= rtc_payload(*self));
        payload
    }
}

/// Reads a frequency, in hundredths of a hertz, from the payload of a reply;
/// a payload shorter than eight bytes is an invalid packet.
pub fn base_freq_from_reply(reply: &[u8]) -> (r: Result<u64, MiniHFError>)
    ensures
        reply@.len() < FREQ_PAYLOAD_LEN ==> r matches Err(MiniHFError::InvalidPacket),
        reply@.len() >= FREQ_PAYLOAD_LEN ==> r == Ok::<u64, MiniHFError>(
            spec_u64_from_le_bytes(reply@.subrange(0, FREQ_PAYLOAD_LEN as int)),
        ),
{
    if reply.len() < FREQ_PAYLOAD_LEN {
        return Err(MiniHFError::InvalidPacket);
    }
    Ok(u64_from_le_bytes(&reply[0..FREQ_PAYLOAD_LEN]))
}

/// A request ready to go out: the sequence id that its response must carry
/// and the frame to write.
pub struct Request {
    pub id: u16,
    pub frame: Vec<u8>,
}

/// The state of a connection as the contracts see it.
pub ghost struct Session {
    pub open: bool,
    pub next_id: u16,
    pub timeout_ms: u64,
    pub rx: Seq<u8>,
}

/// The sequence id that follows `id`; after the largest it starts over at
/// the first.
pub open spec fn id_after(id: u16) -> u16 {
    if id == u16::MAX {
        FIRST_ID
    } else {
        (id + 1) as u16
    }
}

/// `s` after a sequence id has been taken.
pub open spec fn with_id_taken(s: Session) -> Session {
    Session { next_id: id_after(s.next_id), ..s }
}

/// What starting a transaction owes: an oversized payload is refused with
/// nothing changed; otherwise a sequence id is taken, and the request carries
/// it and the frame of the command, unless the connection is closed.
pub open spec fn request_made(
    old: Session,
    new: Session,
    r: Result<Request, MiniHFError>,
    cmd_id: u8,
    payload: Seq<u8>,
) -> bool {
    if payload.len() > MAX_PAYLOAD {
        (r matches Err(MiniHFError::InvalidArgument(_))) && new == old
    } else {
        &&& new == with_id_taken(old)
        &&& old.open ==> (r matches Ok(req) && req.id == old.next_id
            && is_frame(req.frame@, packet_bytes(cmd_id, old.next_id, payload)))
        &&& !old.open ==> r matches Err(MiniHFError::PortClosed)
    }
}

/// What sending without waiting owes: as `request_made`, with the bare frame.
pub open spec fn frame_made(
    old: Session,
    new: Session,
    r: Result<Vec<u8>, MiniHFError>,
    cmd_id: u8,
    payload: Seq<u8>,
) -> bool {
    if payload.len() > MAX_PAYLOAD {
        (r matches Err(MiniHFError::InvalidArgument(_))) && new == old
    } else {
        &&& new == with_id_taken(old)
        &&& old.open ==> (r matches Ok(f) && is_frame(f@, packet_bytes(cmd_id, old.next_id, payload)))
        &&& !old.open ==> r matches Err(MiniHFError::PortClosed)
    }
}

/// The protocol side of a connection to the device: whether it is open, the
/// sequence-id counter, the response timeout and the bytes received but not
/// yet resolved into a frame. The transport itself is driven by the caller,
/// which writes the frames this hands out and feeds back what it reads.
pub struct MiniHF {
    open: bool,
    next_id: u16,
    timeout_ms: u64,
    rx_buf: Vec<u8>,
}

impl View for MiniHF {
    type V = Session;

    closed spec fn view(&self) -> Session {
        Session { open: self.open, next_id: self.next_id, timeout_ms: self.timeout_ms, rx: self.rx_buf@ }
    }
}

impl MiniHF {
    /// The sequence-id counter never stands at the reserved zero.
    pub open spec fn wf(&self) -> bool {
        self@.next_id >= FIRST_ID
    }

    /// An open connection with the given response timeout, an empty receive
    /// buffer and the counter at the first sequence id.
    pub fn open(timeout_ms: u64) -> (r: MiniHF)
        ensures
            r.wf(),
            r@ == (Session { open: true, next_id: FIRST_ID, timeout_ms, rx: Seq::empty() }),
    {
        MiniHF { open: true, next_id: FIRST_ID, timeout_ms, rx_buf: Vec::new() }
    }

    pub fn is_open(&self) -> (r: bool)
        ensures
            r == self@.open,
    {
        self.open
    }

    pub fn timeout_ms(&self) -> (r: u64)
        ensures
            r == self@.timeout_ms,
    {
        self.timeout_ms
    }

    /// Bytes received and not yet resolved into a frame.
    pub fn pending_bytes(&self) -> (r: &[u8])
        ensures
            r@ == self@.rx,
    {
        self.rx_buf.as_slice()
    }

    fn take_id(&mut self) -> (id: u16)
        requires
            old(self).wf(),
        ensures
            final(self).wf(),
            id == old(self)@.next_id,
            final(self)@ == with_id_taken(old(self)@),
    {
        let id = self.next_id;
        if self.next_id == u16::MAX {
            self.next_id = FIRST_ID;
        } else {
            self.next_id = self.next_id + 1;
        }
        id
    }

    /// Frames a command that expects no response. The caller writes the
    /// frame; nothing will be read for it.
    pub fn send_only(&mut self, cmd_id: u8, payload: Vec<u8>) -> (r: Result<Vec<u8>, MiniHFError>)
        requires
            old(self).wf(),
        ensures
            final(self).wf(),
            frame_made(old(self)@, final(self)@, r, cmd_id, payload@),
    {
        if payload.len() > MAX_PAYLOAD {
            return Err(MiniHFError::InvalidArgument("payload too large (max 255 bytes)".to_string()));
        }
        let id = self.take_id();
        let frame = frame_packet(cmd_id, id, payload.as_slice())?;
        if !self.open {
            return Err(MiniHFError::PortClosed);
        }
        Ok(frame)
    }

    /// Starts a transaction: frames the command under a fresh sequence id.
    /// The caller writes the frame, then waits for the response with
    /// `time_left` and `receive`.
    pub fn transact(&mut self, cmd_id: u8, payload: Vec<u8>) -> (r: Result<Request, MiniHFError>)
        requires
            old(self).wf(),
        ensures
            final(self).wf(),
            request_made(old(self)@, final(self)@, r, cmd_id, payload@),
    {
        if payload.len() > MAX_PAYLOAD {
            return Err(MiniHFError::InvalidArgument("payload too large (max 255 bytes)".to_string()));
        }
        let id = self.take_id();
        let frame = frame_packet(cmd_id, id, payload.as_slice())?;
        if !self.open {
            return Err(MiniHFError::PortClosed);
        }
        Ok(Request { id, frame })
    }

    /// The deadline check of a transaction, `elapsed_ms` after its request
    /// was written: the time still left to wait, or, once the timeout has
    /// passed, `Timeout` with the receive buffer cleared.
    pub fn time_left(&mut self, elapsed_ms: u64) -> (r: Result<u64, MiniHFError>)
        requires
            old(self).wf(),
        ensures
            final(self).wf(),
            elapsed_ms < old(self)@.timeout_ms ==> r == Ok::<u64, MiniHFError>(
                (old(self)@.timeout_ms - elapsed_ms) as u64,
            ) && final(self)@ == old(self)@,
            elapsed_ms >= old(self)@.timeout_ms ==> (r matches Err(MiniHFError::Timeout))
                && final(self)@ == (Session { rx: Seq::empty(), ..old(self)@ }),
    {
        if elapsed_ms >= self.timeout_ms {
            self.rx_buf.clear();
            return Err(MiniHFError::Timeout);
        }
        Ok(self.timeout_ms - elapsed_ms)
    }

    /// Appends bytes read from the transport to the receive buffer and looks
    /// for the response to the transaction with sequence id `id`: its payload,
    /// `Nack` where the device rejected the command, or `None` to read on.
    pub fn receive(&mut self, id: u16, chunk: &[u8]) -> (r: Option<Result<Vec<u8>, MiniHFError>>)
        requires
            old(self).wf(),
        ensures
            final(self).wf(),
            reply_matches(r, scan(old(self)@.rx.add(chunk@), id).0),
            final(self)@ == (Session { rx: scan(old(self)@.rx.add(chunk@), id).1, ..old(self)@ }),
    {
        self.rx_buf.extend_from_slice(chunk);
        assert(self.rx_buf@ =~= old(self)@.rx.add(chunk@));
        extract_reply(&mut self.rx_buf, id)
    }

    /// Starts the transaction that sets the device's clock.
    pub fn set_rtc_time(&mut self, time: RtcTime) -> (r: Result<Request, MiniHFError>)
        requires
            old(self).wf(),
        ensures
            final(self).wf(),
            request_made(old(self)@, final(self)@, r, CMD_SET_RTC, rtc_payload(time)),
    {
        self.transact(CMD_SET_RTC, time.to_payload())
    }

    /// Starts the transaction that reads the device's clock; its reply goes
    /// to `RtcTime::from_reply`.
    pub fn get_rtc_time(&mut self) -> (r: Result<Request, MiniHFError>)
        requires
            old(self).wf(),
        ensures
            final(self).wf(),
            request_made(old(self)@, final(self)@, r, CMD_GET_RTC, Seq::empty()),
    {
        self.transact(CMD_GET_RTC, Vec::new())
    }

    /// Starts the transaction that sets the base frequency, given in
    /// hundredths of a hertz.
    pub fn set_base_freq_centihz(&mut self, centihz: u64) -> (r: Result<Request, MiniHFError>)
        requires
            old(self).wf(),
        ensures
            final(self).wf(),
            request_made(old(self)@, final(self)@, r, CMD_SET_BASE_FREQ, spec_u64_to_le_bytes(centihz)),
    {
        self.transact(CMD_SET_BASE_FREQ, u64_to_le_bytes(centihz))
    }

    /// Starts the transaction that reads the base frequency; its reply goes
    /// to `base_freq_from_reply`.
    pub fn get_base_freq_centihz(&mut self) -> (r: Result<Request, MiniHFError>)
        requires
            old(self).wf(),
        ensures
            final(self).wf(),
            request_made(old(self)@, final(self)@, r, CMD_GET_BASE_FREQ, Seq::empty()),
    {
        self.transact(CMD_GET_BASE_FREQ, Vec::new())
    }

    /// Frames the reset command, which the device does not answer.
    pub fn reset(&mut self) -> (r: Result<Vec<u8>, MiniHFError>)
        requires
            old(self).wf(),
        ensures
            final(self).wf(),
            frame_made(old(self)@, final(self)@, r, CMD_RESET, Seq::empty()),
    {
        self.send_only(CMD_RESET, Vec::new())
    }

    /// Closes the connection: the receive buffer is cleared and every later
    /// request fails with `PortClosed`. Closing twice is harmless.
    pub fn close(&mut self) -> (r: Result<(), MiniHFError>)
        requires
            old(self).wf(),
        ensures
            final(self).wf(),
            r is Ok,
            final(self)@ == (Session { open: false, rx: Seq::empty(), ..old(self)@ }),
    {
        self.open = false;
        self.rx_buf.clear();
        Ok(())
    }
}

/// The frequency that a set request carries is the one a read reply with the
/// same payload gives back.
pub proof fn lemma_base_freq_round_trip(centihz: u64)
    ensures
        spec_u64_to_le_bytes(centihz).len() == FREQ_PAYLOAD_LEN,
        spec_u64_from_le_bytes(spec_u64_to_le_bytes(centihz).subrange(0, FREQ_PAYLOAD_LEN as int)) == centihz,
{
    vstd::bytes::lemma_auto_spec_u64_to_from_le_bytes();
    assert(spec_u64_to_le_bytes(centihz).subrange(0, FREQ_PAYLOAD_LEN as int) =~= spec_u64_to_le_bytes(centihz));
}

} // verus!
