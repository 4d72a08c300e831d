use vstd::prelude::*;

verus! {

/// Every failure that the protocol engine reports to its caller.
#[derive(Debug, PartialEq, Eq)]
pub enum MiniHFError {
    /// The serial device could not be opened or configured.
    Serial(String),
    /// No matching valid response arrived before the deadline.
    Timeout,
    /// The device rejected the command.
    Nack,
    /// A matching response was too short for the expected reply.
    InvalidPacket,
    /// The transport failed for a reason other than a timeout.
    Io(String),
    /// A caller-supplied value is out of range; nothing was sent.
    InvalidArgument(String),
    /// The connection has been closed.
    PortClosed,
}

} // verus!
