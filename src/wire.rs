use vstd::prelude::*;

verus! {

/// Opens a framed packet.
pub const PACKET_START: u8 = 0x24;

/// Closes the payload of a framed packet; two checksum digits follow.
pub const PACKET_END: u8 = 0x23;

/// Introduces an escaped byte in a payload.
pub const ESCAPE: u8 = 0x7d;

/// Run-length marker; escaped like the framing bytes.
pub const RUN_LENGTH: u8 = 0x2a;

/// Positive acknowledgement of a packet.
pub const ACK: u8 = 0x2b;

/// Negative acknowledgement: asks for the last packet again.
pub const NAK: u8 = 0x2d;

/// What an escaped byte is combined with by exclusive or.
pub const ESCAPE_MASK: u8 = 0x20;

} // verus!
