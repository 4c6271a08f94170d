//! What the command line settles.

use vstd::prelude::*;

use crate::packet::SampleRate;

verus! {

/// A sample rate that the link cannot carry.
#[derive(Debug, Clone, Copy, PartialEq, Eq, Structural)]
pub struct UnsupportedRate {
    pub hz: u32,
}

/// Picks the capture rate: an explicit request, else whatever the output
/// device is already running at, so the common case needs no flag.
pub fn resolve_sample_rate(requested: Option<u32>, device: Option<SampleRate>) -> (rate: Result<
    SampleRate,
    UnsupportedRate,
>)
    ensures
        rate == match requested {
            Some(hz) => match SampleRate::of_frequency(hz) {
                Some(r) => Ok(r),
                None => Err(UnsupportedRate { hz }),
            },
            None => Ok(
                if device is Some {
                    device->0
                } else {
                    SampleRate::Hz48000
                },
            ),
        },
{
    match requested {
        Some(hz) => match SampleRate::from_hz(hz) {
            Some(rate) => Ok(rate),
            None => Err(UnsupportedRate { hz }),
        },
        None => match device {
            Some(rate) => Ok(rate),
            None => Ok(SampleRate::Hz48000),
        },
    }
}

/// A bitrate given in megabits per second, as the encoder wants it.
pub fn bits_per_second(mbps: u32) -> (bps: i32)
    requires
        mbps * 1_000_000 <= i32::MAX,
    ensures
        bps == mbps * 1_000_000,
{
    (mbps * 1_000_000) as i32
}

/// The lowest bitrate to fall back to, which is never above the highest.
pub fn floor_mbps(min_mbps: u32, mbps: u32) -> (floor: u32)
    ensures
        floor == if min_mbps <= mbps {
            min_mbps
        } else {
            mbps
        },
{
    if min_mbps <= mbps {
        min_mbps
    } else {
        mbps
    }
}

} // verus!
