//! Flags of [`Kind::Video`](crate::packet::Kind) and
//! [`Kind::Audio`](crate::packet::Kind) packets.

use vstd::prelude::*;

verus! {

/// Video: this frame is an IDR.
pub const KEYFRAME: u8 = 0x01;

/// Video: the payload begins with a blob of HEVC parameter sets.
pub const HAS_PARAMS: u8 = 0x02;

/// Audio: the payload carries the previous packet's block after the current one.
pub const HAS_FEC: u8 = 0x04;

/// Video: this datagram is a parity block covering the group of fragments
/// that starts at its `fragment_index`.
pub const PARITY: u8 = 0x80;

} // verus!
