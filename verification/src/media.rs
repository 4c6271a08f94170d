//! Frames and samples between the capture, the codec and the wire.

use vstd::prelude::*;

use crate::packet;
use crate::packet::SampleRate;

verus! {

/// What to capture.
pub struct CaptureOptions {
    pub fps: i32,
    /// Captured at the source's own rate where possible, so a 44.1 kHz project
    /// is never resampled on its way onto the wire.
    pub sample_rate: SampleRate,
    /// Downscales the capture if the display is wider than this, to keep the
    /// encoder and the link within budget.
    pub max_width: i32,
    pub show_cursor: bool,
}

/// One compressed frame, ready to put on the wire.
pub struct EncodedFrame {
    pub data: Vec<u8>,
    pub keyframe: bool,
    pub pts_micros: u64,
    /// VPS/SPS/PPS, carried out-of-band on every frame. They total around a
    /// hundred bytes, and sending them only on keyframes means a single lost
    /// keyframe fragment leaves the receiver unable to build a decoder at all
    /// until the next one, seconds later.
    pub params: Vec<Vec<u8>>,
}

/// A decoded frame, reduced to its luma plane. Luma alone is enough to judge
/// whether the picture survived the round trip.
pub struct DecodedFrame {
    pub luma: Vec<u8>,
    pub width: usize,
    pub height: usize,
    pub pts_micros: u64,
}

/// Presentation timestamps travel in microseconds.
pub const TIMESCALE: i32 = 1_000_000;

/// A media time of `value` parts of a second over `timescale`, in microseconds.
/// Time before zero, or of no scale, counts as zero.
pub open spec fn micros_of(value: i64, timescale: i32) -> int {
    if timescale <= 0 || value <= 0 {
        0
    } else {
        value * 1_000_000 / timescale as int
    }
}

/// A media time in microseconds, cut to 64 bits.
pub fn media_micros(value: i64, timescale: i32) -> (micros: u64)
    ensures
        micros == micros_of(value, timescale) as u64,
{
    if timescale <= 0 || value <= 0 {
        return 0;
    }
    let scaled: i128 = value as i128 * TIMESCALE as i128 / timescale as i128;
    assert(scaled == value * 1_000_000 / timescale as int);
    scaled as u64
}

/// A media time that may be invalid, which counts as zero.
pub fn cmtime_micros(valid: bool, value: i64, timescale: i32) -> (micros: u64)
    ensures
        micros == if valid {
            micros_of(value, timescale) as u64
        } else {
            0
        },
{
    if !valid {
        return 0;
    }
    media_micros(value, timescale)
}

/// A timestamp that is already in microseconds is kept.
pub proof fn law_microseconds_are_kept(value: i64)
    requires
        value >= 0,
    ensures
        micros_of(value, TIMESCALE) as u64 == value,
{
    let v = value as int;
    assert(v * 1_000_000 / 1_000_000 == v);
}

/// The largest even number up to `x`: encoders require even dimensions.
pub fn even(x: i32) -> (e: i32)
    ensures
        e == x - x % 2,
{
    assert(x & !1i32 == x - x % 2) by (bit_vector);
    x & !1
}

/// The picture size to encode a captured one at, if there is anything to encode.
pub fn encoder_size(width: i32, height: i32) -> (size: Option<(i32, i32)>)
    ensures
        size is Some <==> width >= 2 && height >= 2,
        size matches Some((w, h)) ==> w == width - width % 2 && h == height - height % 2,
{
    let w: i32 = even(width);
    let h: i32 = even(height);
    if w <= 0 || h <= 0 {
        None
    } else {
        Some((w, h))
    }
}

/// The widest or tallest display that sizes are figured for.
pub const MAX_SIDE: i32 = 0x100_0000;

/// `height` scaled as `width` is to `max_width`, to the nearest pixel.
pub open spec fn scaled_height(width: i32, height: i32, max_width: i32) -> int {
    (2 * height * max_width + width) / (2 * width)
}

/// The size to capture a display at: no wider than `max_width`, in its own
/// proportions, and with the even dimensions that encoders want.
pub fn capture_size(width: i32, height: i32, max_width: i32) -> (size: (i32, i32))
    requires
        0 <= width <= MAX_SIDE,
        0 <= height <= MAX_SIDE,
        max_width >= 0,
    ensures
        width <= max_width ==> size == (
            (width - width % 2) as i32,
            (height - height % 2) as i32,
        ),
        width > max_width ==> size.0 == max_width - max_width % 2 && size.1 == scaled_height(
            width,
            height,
            max_width,
        ) - scaled_height(width, height, max_width) % 2,
{
    if width <= max_width {
        return (even(width), even(height));
    }
    proof {
        assert(0 <= height * max_width <= 0x1_0000_0000_0000) by (nonlinear_arith)
            requires
                0 <= height <= 0x100_0000,
                0 <= max_width <= 0x100_0000,
        ;
    }
    let product: i64 = height as i64 * max_width as i64;
    proof {
        assert(0 <= product <= height * width) by (nonlinear_arith)
            requires
                product == height * max_width,
                0 <= height,
                0 <= max_width <= width,
        ;
        let (h, w) = (height as int, width as int);
        assert((2 * product + w) / (2 * w) <= h + 1) by (nonlinear_arith)
            requires
                0 <= product <= h * w,
                w > 0,
        ;
        assert(0 <= (2 * product + w) / (2 * w)) by (nonlinear_arith)
            requires
                0 <= product,
                w > 0,
        ;
        assert(2 * product == 2 * height * max_width) by (nonlinear_arith)
            requires
                product == height * max_width,
        ;
    }
    let scaled: i64 = (2 * product + width as i64) / (2 * width as i64);
    (even(max_width), even(scaled as i32))
}

/// Whether a decoder can be built from parameter sets: there are some, and none
/// of them is empty.
pub fn usable_params(sets: &[Vec<u8>]) -> (usable: bool)
    ensures
        usable == (sets@.len() > 0 && forall|i: int|
            0 <= i < sets@.len() ==> (#[trigger] sets@[i])@.len() > 0),
{
    let mut i: usize = 0;
    while i < sets.len()
        invariant
            i <= sets@.len(),
            forall|k: int| 0 <= k < i ==> (#[trigger] sets@[k])@.len() > 0,
        decreases sets@.len() - i,
    {
        if sets[i].len() == 0 {
            return false;
        }
        i = i + 1;
    }
    sets.len() > 0
}

/// Whether a decoder has to start over with `sets`: there are some, and they are
/// not the ones it has.
pub fn replaces_params(sets: &[Vec<u8>], current: &[Vec<u8>]) -> (replaces: bool)
    ensures
        replaces == (sets@.len() > 0 && packet::contents(sets@) != packet::contents(current@)),
{
    if sets.len() != current.len() {
        assert(packet::contents(sets@).len() != packet::contents(current@).len());
        return sets.len() > 0;
    }
    let mut i: usize = 0;
    while i < sets.len()
        invariant
            i <= sets@.len(),
            sets@.len() == current@.len(),
            forall|k: int| 0 <= k < i ==> (#[trigger] sets@[k])@ == current@[k]@,
        decreases sets@.len() - i,
    {
        let (a, b): (&Vec<u8>, &Vec<u8>) = (&sets[i], &current[i]);
        if !same_bytes(a.as_slice(), b.as_slice()) {
            assert(packet::contents(sets@)[i as int] != packet::contents(current@)[i as int]);
            return true;
        }
        i = i + 1;
    }
    assert(packet::contents(sets@) =~= packet::contents(current@));
    false
}

/// Whether two runs of bytes are the same.
fn same_bytes(a: &[u8], b: &[u8]) -> (same: bool)
    ensures
        same == (a@ == b@),
{
    if a.len() != b.len() {
        return false;
    }
    let mut i: usize = 0;
    while i < a.len()
        invariant
            i <= a@.len(),
            a@.len() == b@.len(),
            forall|k: int| 0 <= k < i ==> a@[k] == b@[k],
        decreases a@.len() - i,
    {
        if a[i] != b[i] {
            return false;
        }
        i = i + 1;
    }
    assert(a@ =~= b@);
    true
}

/// One buffer of captured audio: as many channels as it says, interleaved, or
/// nothing where it came without samples.
pub struct ChannelBuffer {
    pub channels: u32,
    pub samples: Option<Vec<u32>>,
}

/// Why no samples came out of captured audio.
#[derive(Debug, Clone, Copy, PartialEq, Eq, Structural)]
pub enum AudioError {
    /// The capture reported no frames.
    NoFrames,
    /// The capture reported no buffers.
    NoBuffers,
    /// The interleaved buffer came without samples.
    InterleavedMissing,
    /// The first channel came without samples.
    FirstMissing,
    /// There was nothing in the buffers.
    NoSamples,
}

/// The samples of a buffer, if it has any.
pub open spec fn buffer_samples(buffers: Seq<ChannelBuffer>, i: int) -> Option<Seq<u32>> {
    if i < buffers.len() {
        match buffers[i].samples {
            Some(samples) => Some(samples@),
            None => None,
        }
    } else {
        None
    }
}

pub open spec fn min(a: nat, b: nat) -> nat {
    if a <= b {
        a
    } else {
        b
    }
}

/// The first two channels of up to `frames` whole frames of `stride` channels.
pub open spec fn first_two(samples: Seq<u32>, stride: nat, frames: nat) -> Seq<u32> {
    Seq::new(
        2 * min(samples.len() / stride, frames),
        |k: int| samples[(k / 2) * stride + k % 2],
    )
}

/// Up to `frames` frames of two channels side by side.
pub open spec fn woven(left: Seq<u32>, right: Seq<u32>, frames: nat) -> Seq<u32> {
    Seq::new(
        2 * min(frames, min(left.len(), right.len())),
        |k: int|
            if k % 2 == 0 {
                left[k / 2]
            } else {
                right[k / 2]
            },
    )
}

/// What comes out of captured audio as interleaved stereo. A single buffer of
/// several channels gives its first two; otherwise there is one buffer per
/// channel, and a lone one is heard on both sides.
pub open spec fn stereo(buffers: Seq<ChannelBuffer>, frames: nat) -> Result<Seq<u32>, AudioError> {
    let first = buffer_samples(buffers, 0);
    let second = buffer_samples(buffers, 1);
    if frames == 0 {
        Err(AudioError::NoFrames)
    } else if buffers.len() == 0 {
        Err(AudioError::NoBuffers)
    } else if buffers.len() == 1 && buffers[0].channels >= 2 {
        match first {
            None => Err(AudioError::InterleavedMissing),
            Some(samples) => {
                let out = first_two(samples, buffers[0].channels as nat, frames);
                if out.len() == 0 {
                    Err(AudioError::NoSamples)
                } else {
                    Ok(out)
                }
            },
        }
    } else {
        match first {
            None => Err(AudioError::FirstMissing),
            Some(left) => {
                let right = if second is Some {
                    second->0
                } else {
                    left
                };
                let out = woven(left, right, frames);
                if out.len() == 0 {
                    Err(AudioError::NoSamples)
                } else {
                    Ok(out)
                }
            },
        }
    }
}

/// Interleaves captured audio.
///
/// The capture hands over *non-interleaved* float audio, one buffer per channel,
/// which is not what an audio output or the wire format wants.
pub fn interleaved_audio(buffers: &[ChannelBuffer], frames: usize) -> (out: Result<
    Vec<u32>,
    AudioError,
>)
    ensures
        out is Ok <==> stereo(buffers@, frames as nat) is Ok,
        out matches Ok(samples) ==> stereo(buffers@, frames as nat) == Ok::<Seq<u32>, AudioError>(
            samples@,
        ),
        out matches Err(error) ==> stereo(buffers@, frames as nat) == Err::<Seq<u32>, AudioError>(
            error,
        ),
{
    if frames == 0 {
        return Err(AudioError::NoFrames);
    }
    if buffers.len() == 0 {
        return Err(AudioError::NoBuffers);
    }
    let out: Vec<u32> = if buffers.len() == 1 && buffers[0].channels >= 2 {
        match &buffers[0].samples {
            Some(samples) => take_first_two(
                samples.as_slice(),
                buffers[0].channels as usize,
                frames,
            ),
            None => {
                return Err(AudioError::InterleavedMissing);
            },
        }
    } else {
        let left: &Vec<u32> = match &buffers[0].samples {
            Some(samples) => samples,
            None => {
                return Err(AudioError::FirstMissing);
            },
        };
        if buffers.len() >= 2 {
            match &buffers[1].samples {
                Some(right) => weave(left.as_slice(), right.as_slice(), frames),
                None => weave(left.as_slice(), left.as_slice(), frames),
            }
        } else {
            weave(left.as_slice(), left.as_slice(), frames)
        }
    };
    if out.len() == 0 {
        return Err(AudioError::NoSamples);
    }
    Ok(out)
}

/// The first two channels of up to `frames` whole frames of `stride` channels.
fn take_first_two(samples: &[u32], stride: usize, frames: usize) -> (out: Vec<u32>)
    requires
        stride >= 2,
    ensures
        out@ == first_two(samples@, stride as nat, frames as nat),
{
    let len: usize = samples.len();
    let whole: usize = len / stride;
    let count: usize = if whole <= frames {
        whole
    } else {
        frames
    };
    let ghost all = first_two(samples@, stride as nat, frames as nat);
    let mut out: Vec<u32> = Vec::new();
    let mut at: usize = 0;
    let mut i: usize = 0;
    proof {
        assert(whole * stride <= len) by (nonlinear_arith)
            requires
                whole == len / stride,
                stride >= 2,
        ;
        assert(0 * stride == 0) by (nonlinear_arith);
    }
    while i < count
        invariant
            i <= count <= whole,
            count == min(whole as nat, frames as nat),
            whole == samples@.len() / stride as nat,
            len == samples@.len(),
            whole * stride <= len,
            stride >= 2,
            at == i * stride,
            all == first_two(samples@, stride as nat, frames as nat),
            out@ == all.take(2 * i),
        decreases count - i,
    {
        proof {
            assert((i + 1) * stride == i * stride + stride && (i + 1) * stride <= whole * stride)
                by (nonlinear_arith)
                requires
                    i + 1 <= whole,
            ;
            let k = 2 * i;
            assert(all[k] == samples@[i * stride as int]);
            assert(all[k + 1] == samples@[i * stride + 1]);
            assert(all.take(k + 2) =~= all.take(k).push(all[k]).push(all[k + 1]));
        }
        out.push(samples[at]);
        out.push(samples[at + 1]);
        at = at + stride;
        i = i + 1;
    }
    assert(all.take(2 * i) =~= all);
    out
}

/// Up to `frames` frames of two channels side by side.
fn weave(left: &[u32], right: &[u32], frames: usize) -> (out: Vec<u32>)
    ensures
        out@ == woven(left@, right@, frames as nat),
{
    let shorter: usize = if left.len() <= right.len() {
        left.len()
    } else {
        right.len()
    };
    let count: usize = if frames <= shorter {
        frames
    } else {
        shorter
    };
    let ghost all = woven(left@, right@, frames as nat);
    let mut out: Vec<u32> = Vec::new();
    let mut i: usize = 0;
    while i < count
        invariant
            i <= count,
            count == min(frames as nat, min(left@.len(), right@.len())),
            all == woven(left@, right@, frames as nat),
            out@ == all.take(2 * i),
        decreases count - i,
    {
        out.push(left[i]);
        out.push(right[i]);
        proof {
            let k = 2 * i;
            assert(all.take(k + 2) =~= all.take(k).push(all[k]).push(all[k + 1]));
        }
        i = i + 1;
    }
    assert(all.take(2 * i) =~= all);
    out
}

/// Sample `k` of what comes out of captured audio stands where it should. One buffer
/// of several channels gives its first two, left then right, frame by frame. One
/// buffer per channel gives the first on the left and the second on the right; where
/// there is no second, the first is heard on both sides. As many frames come out as
/// all of these have, and no more than the capture reported.
pub proof fn law_each_channel_stays_on_its_side(
    buffers: Seq<ChannelBuffer>,
    frames: nat,
    k: int,
)
    requires
        stereo(buffers, frames) is Ok,
        0 <= k < stereo(buffers, frames)->Ok_0.len(),
    ensures
        ({
            let out = stereo(buffers, frames)->Ok_0;
            let left = buffers[0].samples->0@;
            let stride = buffers[0].channels as nat;
            let count = out.len() / 2;
            let frame = k / 2;
            &&& out.len() % 2 == 0
            &&& 0 < count <= frames
            &&& buffers[0].samples is Some
            &&& buffers.len() == 1 && stride >= 2 ==> {
                &&& count == frames || count == left.len() / stride
                &&& count <= left.len() / stride
                &&& out[k] == left[frame * stride + k % 2]
            }
            &&& !(buffers.len() == 1 && stride >= 2) ==> {
                let lone = buffers.len() == 1 || buffers[1].samples is None;
                let right = if lone {
                    left
                } else {
                    buffers[1].samples->0@
                };
                &&& count == frames || count == left.len() || count == right.len()
                &&& count <= left.len() && count <= right.len()
                &&& k % 2 == 0 ==> out[k] == left[frame]
                &&& k % 2 == 1 ==> out[k] == right[frame]
            }
        }),
{
}

/// Nothing comes out of captured audio just where there is nothing to take: no
/// frames, no buffers, no samples where the first should be, or none in common.
pub proof fn law_audio_is_missing_only_where_there_is_none(
    buffers: Seq<ChannelBuffer>,
    frames: nat,
)
    ensures
        ({
            let out = stereo(buffers, frames);
            let packed = buffers.len() == 1 && buffers[0].channels >= 2;
            &&& frames == 0 ==> out == Err::<Seq<u32>, AudioError>(AudioError::NoFrames)
            &&& frames > 0 && buffers.len() == 0 ==> out == Err::<Seq<u32>, AudioError>(
                AudioError::NoBuffers,
            )
            &&& frames > 0 && buffers.len() > 0 && buffers[0].samples is None ==> out == Err::<
                Seq<u32>,
                AudioError,
            >(
                if packed {
                    AudioError::InterleavedMissing
                } else {
                    AudioError::FirstMissing
                },
            )
            &&& frames > 0 && buffers.len() > 0 && buffers[0].samples is Some ==> {
                let left = buffers[0].samples->0@;
                let none = if packed {
                    left.len() / buffers[0].channels as nat == 0
                } else {
                    left.len() == 0 || (buffers.len() >= 2 && buffers[1].samples is Some
                        && buffers[1].samples->0@.len() == 0)
                };
                &&& none ==> out == Err::<Seq<u32>, AudioError>(AudioError::NoSamples)
                &&& !none ==> out is Ok
            }
        }),
{
}

/// A media time is given in whole microseconds, rounded down. Time before zero, or
/// of no scale, is zero.
pub proof fn law_media_times_are_rounded_down(value: i64, timescale: i32)
    ensures
        value > 0 && timescale > 0 ==> micros_of(value, timescale) * timescale <= value * 1_000_000
            < (micros_of(value, timescale) + 1) * timescale,
        value <= 0 || timescale <= 0 ==> micros_of(value, timescale) == 0,
{
    if timescale > 0 {
        let total = value * 1_000_000;
        let q = total / timescale as int;
        assert(q * timescale <= total < (q + 1) * timescale) by (nonlinear_arith)
            requires
                q == total / timescale as int,
                timescale > 0,
        ;
    }
}

/// A scaled height keeps the proportions to the nearest pixel.
pub proof fn law_scaling_keeps_proportions(width: i32, height: i32, max_width: i32)
    requires
        width > 0,
        height >= 0,
        max_width >= 0,
    ensures
        ({
            let exact = 2 * (height * max_width);
            let scaled = 2 * (scaled_height(width, height, max_width) * width);
            exact - width < scaled <= exact + width
        }),
{
    let w = width as int;
    let exact = 2 * (height * max_width);
    assert(2 * height * max_width == exact) by (nonlinear_arith)
        requires
            exact == 2 * (height * max_width),
    ;
    let q = (exact + w) / (2 * w);
    assert(2 * (q * w) <= exact + w < 2 * (q * w) + 2 * w) by (nonlinear_arith)
        requires
            q == (exact + w) / (2 * w),
            w > 0,
    ;
}

} // verus!
