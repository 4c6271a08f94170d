//! Flags of [`Kind::Control`](crate::packet::Kind) packets.
//!
//! These deliberately use different bits from the media flags, so a packet read
//! with the wrong kind in mind is inert rather than ambiguous.

use vstd::prelude::*;

use crate::packet::flags;

verus! {

/// The receiver lost sync and needs a fresh IDR.
pub const KEYFRAME_REQUEST: u8 = 0x08;

/// Latency probe. `pts_micros` carries the sender's clock reading.
pub const PING: u8 = 0x10;

/// Echo of a [`PING`], carrying its `pts_micros` back unchanged.
pub const PONG: u8 = 0x20;

/// The receiver's feedback: requested video bitrate and parity blocks, as two
/// little-endian 32-bit numbers in the body.
pub const BITRATE: u8 = 0x40;

/// No control flag shares a bit with a media flag: a byte made of control flags
/// alone reads as no media flag, and the other way round.
pub proof fn law_control_and_media_flags_are_apart(byte: u8)
    ensures
        byte & (KEYFRAME_REQUEST | PING | PONG | BITRATE) == byte ==> byte & (flags::KEYFRAME
            | flags::HAS_PARAMS | flags::HAS_FEC | flags::PARITY) == 0,
        byte & (flags::KEYFRAME | flags::HAS_PARAMS | flags::HAS_FEC | flags::PARITY) == byte
            ==> byte & (KEYFRAME_REQUEST | PING | PONG | BITRATE) == 0,
{
    assert(byte & (0x08u8 | 0x10u8 | 0x20u8 | 0x40u8) == byte ==> byte & (0x01u8 | 0x02u8 | 0x04u8
        | 0x80u8) == 0) by (bit_vector);
    assert(byte & (0x01u8 | 0x02u8 | 0x04u8 | 0x80u8) == byte ==> byte & (0x08u8 | 0x10u8 | 0x20u8
        | 0x40u8) == 0) by (bit_vector);
}

} // verus!
