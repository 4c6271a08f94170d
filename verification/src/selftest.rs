//! What the self-test decides: when to recover, what it received, and whether
//! the audio survived.

use vstd::prelude::*;

use crate::receive;
use crate::receive::drain_ready;
use crate::video;
use crate::video::{Depacketizer, Received};

verus! {

pub struct Options {
    pub frames: u32,
    pub width: usize,
    pub height: usize,
    pub mbps: u32,
    pub fps: i32,
    /// Drop this percentage of datagrams to exercise loss handling.
    pub loss_percent: u32,
    /// Deliver datagrams up to this many positions out of order, as network
    /// jitter over a long path does.
    pub reorder: u32,
    /// Parity blocks per fragment group: one repairs a single loss, two repair
    /// any pair.
    pub parity: usize,
}

/// A frame rate that is at least one.
pub open spec fn rate_of(fps: i32) -> int {
    if fps >= 1 {
        fps as int
    } else {
        1
    }
}

/// When frame `index` is shown, in microseconds.
pub fn frame_pts(index: u32, fps: i32) -> (pts: u64)
    ensures
        pts == index * 1_000_000 / rate_of(fps),
{
    let rate: u64 = if fps >= 1 {
        fps as u64
    } else {
        1
    };
    index as u64 * 1_000_000 / rate
}

/// Rate-limits recovery requests the way the real receiver does.
#[derive(Debug, Clone, Copy, PartialEq, Eq, Structural)]
pub struct Recovery {
    /// A frame could not be decoded since the last request.
    pub wanted: bool,
    pub frames_since_request: u32,
    /// Frames to let pass between requests.
    pub interval: u32,
    pub requests: u64,
}

impl Recovery {
    /// Four requests a second at most.
    pub fn new(fps: i32) -> (recovery: Self)
        ensures
            recovery == (Recovery {
                wanted: false,
                frames_since_request: u32::MAX,
                interval: (rate_of(fps) / 4) as u32,
                requests: 0,
            }),
    {
        let rate: u32 = if fps >= 1 {
            fps as u32
        } else {
            1
        };
        Recovery {
            wanted: false,
            frames_since_request: u32::MAX,
            interval: rate / 4,
            requests: 0,
        }
    }

    /// Whether a pending request is honoured with the next frame.
    pub open spec fn honours(self) -> bool {
        self.wanted && self.frames_since_request >= self.interval
    }

    /// The state once the next frame is encoded. The first frame is a keyframe
    /// anyway, and answers no request.
    pub open spec fn after(self, index: u32) -> Recovery {
        let honoured = index > 0 && self.honours();
        let since = if honoured {
            0
        } else {
            self.frames_since_request
        };
        Recovery {
            wanted: self.wanted && !honoured,
            frames_since_request: if since == u32::MAX {
                u32::MAX
            } else {
                (since + 1) as u32
            },
            interval: self.interval,
            requests: if honoured {
                (self.requests + 1) as u64
            } else {
                self.requests
            },
        }
    }

    /// Whether to encode frame `index` as a keyframe.
    pub fn next_frame(&mut self, index: u32) -> (force_key: bool)
        requires
            old(self).requests < u64::MAX,
        ensures
            force_key == (index == 0 || old(self).honours()),
            *final(self) == old(self).after(index),
    {
        let force_key: bool = index == 0 || (self.wanted && self.frames_since_request
            >= self.interval);
        if force_key && index > 0 {
            self.requests = self.requests + 1;
            self.frames_since_request = 0;
            self.wanted = false;
        }
        if self.frames_since_request < u32::MAX {
            self.frames_since_request = self.frames_since_request + 1;
        }
        force_key
    }
}

/// A decodable frame: its number, its data and its timestamp.
pub struct Decodable {
    pub seq: u64,
    pub data: Vec<u8>,
    pub pts_micros: u64,
}

/// A decodable frame by its contents.
pub open spec fn decodable(frame: Decodable) -> (u64, Seq<u8>, u64) {
    (frame.seq, frame.data@, frame.pts_micros)
}

/// What was received so far.
#[verifier::ext_equal]
pub struct CollectedView {
    pub params: Option<Seq<Seq<u8>>>,
    pub frames: Seq<(u64, Seq<u8>, u64)>,
    pub wants_keyframe: bool,
}

impl CollectedView {
    /// What was received once one more release is taken in. The first parameter
    /// sets are the ones that count.
    pub open spec fn with(self, received: video::ReceivedView) -> CollectedView {
        match received {
            video::ReceivedView::Pending => self,
            video::ReceivedView::NeedKeyframe => CollectedView { wants_keyframe: true, ..self },
            video::ReceivedView::Frame { seq, params, data, pts_micros } => CollectedView {
                params: if self.params is None {
                    params
                } else {
                    self.params
                },
                frames: self.frames.push((seq, data, pts_micros)),
                ..self
            },
        }
    }

    /// What was received once several releases are taken in.
    pub open spec fn with_all(self, released: Seq<video::ReceivedView>) -> CollectedView
        decreases released.len(),
    {
        if released.len() == 0 {
            self
        } else {
            self.with_all(released.drop_last()).with(released.last())
        }
    }
}

/// Collects what the depacketizer releases.
pub struct Collected {
    pub params: Option<Vec<Vec<u8>>>,
    pub frames: Vec<Decodable>,
    pub wants_keyframe: bool,
}

impl Collected {
    pub open spec fn model(self) -> CollectedView {
        CollectedView {
            params: video::sets_of(self.params),
            frames: self.frames@.map_values(|frame: Decodable| decodable(frame)),
            wants_keyframe: self.wants_keyframe,
        }
    }

    pub fn new() -> (collected: Self)
        ensures
            collected.model() == (CollectedView {
                params: None,
                frames: seq![],
                wants_keyframe: false,
            }),
    {
        let collected = Collected { params: None, frames: Vec::new(), wants_keyframe: false };
        assert(collected.model().frames =~= seq![]);
        collected
    }

    /// Takes in everything that is in order by now.
    pub fn drain(&mut self, video: &mut Depacketizer)
        requires
            old(video).valid(),
        ensures
            final(video).valid(),
            final(video).model() == receive::all_polled(old(video).model()).0,
            final(self).model() == old(self).model().with_all(
                receive::all_polled(old(video).model()).1,
            ),
    {
        let mut ready = drain_ready(video);
        let ghost all = receive::received_contents(ready@);
        assert(all.skip(0) =~= all);
        while ready.len() > 0
            invariant
                ready@.len() <= all.len(),
                receive::received_contents(ready@) == all.skip(all.len() - ready@.len()),
                self.model() == old(self).model().with_all(
                    all.take(all.len() - ready@.len()),
                ),
            decreases ready@.len(),
        {
            let ghost at = all.len() - ready@.len();
            let ghost state = self.model();
            let ghost frames = self.frames@;
            let received = ready.remove(0);
            proof {
                assert(all.skip(at)[0] == received.model());
                assert(all.take(at + 1).drop_last() =~= all.take(at));
                assert(all.take(at + 1).last() == received.model());
                assert(receive::received_contents(ready@) =~= all.skip(at).skip(1));
                assert(all.skip(at + 1) =~= all.skip(at).skip(1));
            }
            match received {
                Received::Pending => {},
                Received::NeedKeyframe => {
                    self.wants_keyframe = true;
                },
                Received::Frame { seq, params, data, pts_micros } => {
                    if self.params.is_none() {
                        self.params = params;
                    }
                    self.frames.push(Decodable { seq, data, pts_micros });
                },
            }
            assert(self.model() =~= state.with(received.model()));
        }
        assert(all.take(all.len() as int) =~= all);
    }
}

/// Whether a float with these bits is not a number.
pub open spec fn is_nan(bits: u32) -> bool {
    bits & 0x7fff_ffff > 0x7f80_0000
}

/// Whether a float with these bits is zero, of either sign.
pub open spec fn is_zero(bits: u32) -> bool {
    bits & 0x7fff_ffff == 0
}

/// Whether two floats with these bits are equal as numbers.
pub open spec fn same(a: u32, b: u32) -> bool {
    !is_nan(a) && !is_nan(b) && (a == b || (is_zero(a) && is_zero(b)))
}

/// Whether two floats with these bits are equal as numbers.
fn is_same(a: u32, b: u32) -> (equal: bool)
    ensures
        equal == same(a, b),
{
    let left: u32 = a & 0x7fff_ffff;
    let right: u32 = b & 0x7fff_ffff;
    left <= 0x7f80_0000 && right <= 0x7f80_0000 && (a == b || (left == 0 && right == 0))
}

/// How many of the first `n` samples differ from those of the source from
/// `shift` on.
pub open spec fn differing(out: Seq<u32>, source: Seq<u32>, shift: int, n: nat) -> nat
    decreases n,
{
    if n == 0 {
        0
    } else {
        differing(out, source, shift, (n - 1) as nat) + if same(out[n - 1], source[shift + n - 1]) {
            0nat
        } else {
            1
        }
    }
}

/// How many samples are compared when the stream began `shift` samples in.
pub open spec fn compared(out: Seq<u32>, source: Seq<u32>, shift: int) -> nat {
    let left = if out.len() >= shift {
        (out.len() - shift) as nat
    } else {
        0
    };
    if left <= source.len() {
        left
    } else {
        source.len()
    }
}

/// How many samples differ when the stream began `block` blocks in.
pub open spec fn mismatches(out: Seq<u32>, source: Seq<u32>, per_block: nat, block: int) -> nat {
    let shift = block * per_block;
    differing(out, source, shift, compared(out, source, shift))
}

/// How an output stream lines up with its source.
#[derive(Debug, Clone, Copy, PartialEq, Eq, Structural)]
pub struct Alignment {
    /// The block that the stream began at.
    pub offset: usize,
    /// How many samples differ then.
    pub mismatches: usize,
    /// How many samples were compared then.
    pub compared: usize,
}

/// How many blocks into the source a stream may begin.
pub const ALIGNMENTS: usize = 8;

/// Finds the block that an output stream began at.
///
/// If the very first packets were lost the receiver cannot know they existed, so
/// its timeline legitimately starts later. Of the first eight blocks this takes
/// the one with the fewest differing samples, and the earliest of those.
pub fn align(out: &[u32], source: &[u32], per_block: usize) -> (best: Alignment)
    requires
        out@.len() <= source@.len(),
        7 * per_block <= source@.len(),
    ensures
        best.offset < ALIGNMENTS,
        best.mismatches == mismatches(out@, source@, per_block as nat, best.offset as int),
        best.compared == compared(out@, source@, best.offset * per_block),
        forall|block: int|
            0 <= block < ALIGNMENTS ==> best.mismatches <= #[trigger] mismatches(
                out@,
                source@,
                per_block as nat,
                block,
            ),
        forall|block: int|
            0 <= block < best.offset ==> best.mismatches < #[trigger] mismatches(
                out@,
                source@,
                per_block as nat,
                block,
            ),
{
    let total: usize = source.len();
    let mut best = count_mismatches(out, source, 0);
    let mut shift: usize = 0;
    let mut block: usize = 1;
    proof {
        assert(0 * per_block == 0) by (nonlinear_arith);
    }
    while block < ALIGNMENTS
        invariant
            1 <= block <= ALIGNMENTS,
            total == source@.len(),
            out@.len() <= source@.len(),
            7 * per_block <= source@.len(),
            shift == (block - 1) * per_block,
            best.offset < block,
            best.mismatches == mismatches(out@, source@, per_block as nat, best.offset as int),
            best.compared == compared(out@, source@, best.offset * per_block),
            forall|b: int|
                0 <= b < block ==> best.mismatches <= #[trigger] mismatches(
                    out@,
                    source@,
                    per_block as nat,
                    b,
                ),
            forall|b: int|
                0 <= b < best.offset ==> best.mismatches < #[trigger] mismatches(
                    out@,
                    source@,
                    per_block as nat,
                    b,
                ),
        decreases ALIGNMENTS - block,
    {
        proof {
            assert(block * per_block == (block - 1) * per_block + per_block && block * per_block
                <= 7 * per_block) by (nonlinear_arith)
                requires
                    block <= 7,
            ;
        }
        shift = shift + per_block;
        let here = count_mismatches(out, source, shift);
        if here.mismatches < best.mismatches {
            best = Alignment {
                offset: block,
                mismatches: here.mismatches,
                compared: here.compared,
            };
        }
        block = block + 1;
    }
    best
}

/// Counts what differs when the stream began `shift` samples in.
fn count_mismatches(out: &[u32], source: &[u32], shift: usize) -> (here: Alignment)
    requires
        out@.len() <= source@.len(),
        shift <= source@.len(),
    ensures
        here.offset == 0,
        here.compared == compared(out@, source@, shift as int),
        here.mismatches == differing(
            out@,
            source@,
            shift as int,
            compared(out@, source@, shift as int),
        ),
{
    let total: usize = source.len();
    let n: usize = if out.len() >= shift {
        out.len() - shift
    } else {
        0
    };
    let mut found: usize = 0;
    let mut i: usize = 0;
    while i < n
        invariant
            i <= n,
            n == compared(out@, source@, shift as int),
            shift + n <= source@.len(),
            n <= out@.len(),
            total == source@.len(),
            found <= i,
            found == differing(out@, source@, shift as int, i as nat),
        decreases n - i,
    {
        if !is_same(out[i], source[shift + i]) {
            found = found + 1;
        }
        i = i + 1;
    }
    Alignment { offset: 0, mismatches: found, compared: n }
}

/// Whether the quality of the decoded frames is good enough. On a clean link every
/// frame must clear the quality floor. With loss, frames that reference lost data
/// are damaged; what matters is that nine in ten clear it. No frames at all are
/// never good enough.
pub fn video_passed(loss_percent: u32, below_floor: usize, decoded: usize) -> (passed: bool)
    ensures
        passed == (decoded > 0 && if loss_percent == 0 {
            below_floor == 0
        } else {
            10 * below_floor <= decoded
        }),
{
    decoded > 0 && if loss_percent == 0 {
        below_floor == 0
    } else {
        below_floor <= decoded / 10
    }
}

/// What the video half of the self-test found.
#[derive(Debug, Clone, Copy, PartialEq, Eq, Structural)]
pub struct VideoFindings {
    /// Parameter sets arrived, without which nothing can be decoded.
    pub has_params: bool,
    /// A frame decoded to another size than that of the source.
    pub wrong_size: bool,
    /// Frames that decoded and could be compared with their source.
    pub decoded: usize,
    /// Those among them below the quality floor.
    pub below_floor: usize,
}

/// What came of the video half of the self-test.
#[derive(Debug, Clone, Copy, PartialEq, Eq, Structural)]
pub enum VideoVerdict {
    /// No parameter sets ever arrived; nothing could be decoded.
    NoParams,
    /// The decoded size does not match the source.
    WrongSize,
    /// No frames decoded; the video path is broken.
    NothingDecoded,
    /// Too many frames are below the quality floor.
    BelowFloor,
    Passed,
}

impl VideoFindings {
    /// What these findings come to, with `loss_percent` of the datagrams dropped.
    /// The first thing that is wrong decides.
    pub fn verdict(&self, loss_percent: u32) -> (verdict: VideoVerdict)
        ensures
            verdict == VideoVerdict::NoParams <==> !self.has_params,
            verdict == VideoVerdict::WrongSize <==> self.has_params && self.wrong_size,
            verdict == VideoVerdict::NothingDecoded <==> self.has_params && !self.wrong_size
                && self.decoded == 0,
            verdict == VideoVerdict::Passed <==> {
                &&& self.has_params
                &&& !self.wrong_size
                &&& self.decoded > 0
                &&& if loss_percent == 0 {
                    self.below_floor == 0
                } else {
                    10 * self.below_floor <= self.decoded
                }
            },
    {
        if !self.has_params {
            VideoVerdict::NoParams
        } else if self.wrong_size {
            VideoVerdict::WrongSize
        } else if self.decoded == 0 {
            VideoVerdict::NothingDecoded
        } else if video_passed(loss_percent, self.below_floor, self.decoded) {
            VideoVerdict::Passed
        } else {
            VideoVerdict::BelowFloor
        }
    }
}

/// Whether the audio survived. Concealment is legitimate when two packets in a
/// row are lost; a clean link must be perfect.
pub fn audio_passed(loss_percent: u32, mismatches: usize, concealed: u64) -> (passed: bool)
    ensures
        passed == (mismatches == 0 || (loss_percent > 0 && concealed > 0)),
{
    if loss_percent == 0 {
        mismatches == 0
    } else {
        concealed > 0 || mismatches == 0
    }
}

/// What came of the audio half of the self-test.
#[derive(Debug, Clone, Copy, PartialEq, Eq, Structural)]
pub enum AudioVerdict {
    /// No audio arrived.
    NothingArrived,
    /// Samples differ that concealment does not account for.
    Differs,
    Passed,
}

/// What the audio comes to, as it lines up best with its source.
pub fn audio_verdict(loss_percent: u32, best: Alignment, concealed: u64) -> (verdict: AudioVerdict)
    ensures
        verdict == AudioVerdict::NothingArrived <==> best.compared == 0,
        verdict == AudioVerdict::Passed <==> best.compared > 0 && (best.mismatches == 0 || (
        loss_percent > 0 && concealed > 0)),
{
    if best.compared == 0 {
        AudioVerdict::NothingArrived
    } else if audio_passed(loss_percent, best.mismatches, concealed) {
        AudioVerdict::Passed
    } else {
        AudioVerdict::Differs
    }
}

/// A frame rate is taken as it is, but never as less than one, and requests are a
/// quarter of a second apart at it.
pub proof fn law_a_frame_rate_is_at_least_one(fps: i32)
    ensures
        fps >= 1 ==> rate_of(fps) == fps,
        fps < 1 ==> rate_of(fps) == 1,
{
}

/// A request that is wanted is honoured once enough frames have passed since the
/// last, but not by the first frame of all, which is a keyframe anyway. Honouring it
/// counts it, and it is wanted no more; otherwise it stays as it was. Each frame
/// counts as passed, its own included.
pub proof fn law_a_request_is_honoured_once_it_is_due(recovery: Recovery, index: u32)
    requires
        recovery.requests < u64::MAX,
    ensures
        ({
            let after = recovery.after(index);
            let due = recovery.wanted && recovery.frames_since_request >= recovery.interval;
            let passed = recovery.frames_since_request as int + 1;
            &&& recovery.honours() <==> due
            &&& index > 0 && due ==> {
                &&& !after.wanted
                &&& after.requests == recovery.requests + 1
                &&& after.frames_since_request == 1
            }
            &&& index == 0 || !due ==> {
                &&& after.wanted == recovery.wanted
                &&& after.requests == recovery.requests
                &&& after.frames_since_request == if passed <= u32::MAX {
                    passed
                } else {
                    u32::MAX as int
                }
            }
            &&& after.interval == recovery.interval
        }),
{
}

/// Everything released is collected in order: each frame with its number, data and
/// timestamp, the first parameter sets of all, and whether a keyframe was ever
/// asked for.
pub proof fn law_what_is_released_is_collected_in_order(
    collected: CollectedView,
    released: Seq<video::ReceivedView>,
    last: video::ReceivedView,
)
    ensures
        ({
            let before = collected.with_all(released);
            let after = collected.with_all(released.push(last));
            &&& collected.with_all(seq![]) == collected
            &&& last is Pending ==> after == before
            &&& last is NeedKeyframe ==> after.wants_keyframe && after.frames == before.frames
                && after.params == before.params
            &&& last matches video::ReceivedView::Frame { seq, params, data, pts_micros } ==> {
                &&& after.frames.len() == before.frames.len() + 1
                &&& after.frames.last() == (seq, data, pts_micros)
                &&& after.frames.drop_last() == before.frames
                &&& after.params == if before.params is Some {
                    before.params
                } else {
                    params
                }
                &&& after.wants_keyframe == before.wants_keyframe
            }
        }),
{
    assert(released.push(last).drop_last() =~= released);
    let before = collected.with_all(released);
    let after = collected.with_all(released.push(last));
    if last is Frame {
        assert(after.frames.drop_last() =~= before.frames);
    }
}

/// Two floats are equal as numbers if they have the same bits or are both zero, and
/// neither is without value. A float is zero if all its bits but the sign are, and
/// without value if they are more than those of infinity.
pub proof fn law_floats_are_compared_as_numbers(a: u32, b: u32)
    ensures
        ({
            let (x, y) = (a as int % 0x8000_0000, b as int % 0x8000_0000);
            same(a, b) <==> x <= 0x7f80_0000 && y <= 0x7f80_0000 && (a == b || (x == 0 && y == 0))
        }),
{
    assert(a & 0x7fff_ffff == a % 0x8000_0000) by (bit_vector);
    assert(b & 0x7fff_ffff == b % 0x8000_0000) by (bit_vector);
}

/// Samples that differ are counted one by one, each against the one as far on in the
/// source as the stream began late.
pub proof fn law_differing_samples_are_counted(
    out: Seq<u32>,
    source: Seq<u32>,
    shift: int,
    n: nat,
)
    ensures
        differing(out, source, shift, 0) == 0,
        differing(out, source, shift, n + 1) == differing(out, source, shift, n) + if same(
            out[n as int],
            source[shift + n],
        ) {
            0nat
        } else {
            1
        },
{
}

/// What is compared when the stream began `block` blocks in is what is left of it
/// from there on, and no more than there is to compare it with.
pub proof fn law_as_much_is_compared_as_there_is(
    out: Seq<u32>,
    source: Seq<u32>,
    per_block: nat,
    block: int,
)
    requires
        block >= 0,
    ensures
        ({
            let shift = block * per_block;
            let n = compared(out, source, shift);
            &&& n <= source.len()
            &&& shift + n <= out.len() || n == 0
            &&& n == source.len() || n == out.len() - shift || (n == 0 && shift >= out.len())
            &&& mismatches(out, source, per_block, block) == differing(out, source, shift, n)
        }),
{
    assert(block * per_block >= 0) by (nonlinear_arith)
        requires
            block >= 0,
    ;
}

} // verus!
