//! Host side of a small request/response protocol for an embedded radio
//! device: packet codec, frame delimiting and the transaction engine.

pub mod codec;
pub mod engine;
pub mod error;
pub mod framer;

pub use codec::{build_packet, parse_packet, ParsedPacket};
pub use engine::{base_freq_from_reply, MiniHF, Request, RtcTime};
pub use error::MiniHFError;
