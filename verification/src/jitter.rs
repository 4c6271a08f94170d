//! Audio jitter buffer.
//!
//! Audio is sent as uncompressed interleaved 32-bit floats, so there is no codec
//! to hide packet loss. Instead each packet piggybacks a copy of the previous
//! packet's block, which makes any isolated loss fully recoverable at the cost of
//! doubling a stream that is only about 3 Mbit/s to begin with.
//!
//! Samples are handled as bit patterns. Where playback calls for computing with
//! them, to fade out a gap or to read between two samples, the buffer hands out
//! the samples to compute with.

use std::collections::{BTreeMap, VecDeque};

use vstd::prelude::*;

use crate::packet::{flags, Header, SampleRate, AUDIO_CHANNELS};
use crate::packetize;
use crate::samples;
use crate::samples::read_sample;

pub mod gaps;
pub mod playing;

verus! {

/// Frames over which a concealed gap is faded out, to avoid a click on the seam.
pub const FADE_SAMPLES: usize = 64;

/// Packets held aside waiting for an earlier one that has not arrived yet.
///
/// Long network paths deliver packets out of order, and treating a late arrival
/// as lost throws away audio that is sitting right there. Eight packets is about
/// 11 ms at 48 kHz, which covers the reordering a real path produces while
/// bounding how long a lost packet can hold up playback.
pub const REORDER_WINDOW: usize = 8;

/// Largest playback speed adjustment, in parts per million.
///
/// 0.1% is about 1.7 cents, far below what anyone can hear, and roughly twenty
/// times typical crystal error, so there is ample authority to correct without
/// the correction itself being audible.
pub const MAX_DRIFT_PPM: i32 = 1000;

/// A sample due for playback: the float with these bits, less `fade` parts of
/// itself in [`FADE_SAMPLES`]. A sample that arrived has no fade.
#[derive(Debug, Clone, Copy, PartialEq, Eq, Structural)]
pub struct Sample {
    pub bits: u32,
    pub fade: u8,
}

/// A sample as it arrived.
pub open spec fn exact(bits: u32) -> Sample {
    Sample { bits, fade: 0 }
}

/// Silence.
pub open spec fn silence(count: nat) -> Seq<Sample> {
    Seq::new(count, |i: int| exact(0))
}

/// The samples of a block as they arrived.
pub open spec fn exact_samples(block: Seq<u8>) -> Seq<Sample> {
    samples::samples_in(block).map_values(|bits: u32| exact(bits))
}

#[derive(Debug, Clone, Copy, PartialEq, Eq, Structural)]
pub struct Stats {
    /// Packets that arrived but were already played past.
    pub late: u64,
    /// Blocks rebuilt from a following packet's copy.
    pub recovered: u64,
    /// Blocks that were lost outright and concealed.
    pub concealed: u64,
    /// Times the consumer asked for audio the buffer did not have.
    pub underruns: u64,
    /// Current playback speed correction in parts per million. Zero means the
    /// audio is being played exactly as it arrived.
    pub drift_ppm: i32,
}

impl Stats {
    /// Nothing counted.
    pub open spec fn zero() -> Stats {
        Stats { late: 0, recovered: 0, concealed: 0, underruns: 0, drift_ppm: 0 }
    }
}

impl Default for Stats {
    fn default() -> (stats: Self)
        ensures
            stats == Stats::zero(),
    {
        Stats { late: 0, recovered: 0, concealed: 0, underruns: 0, drift_ppm: 0 }
    }
}

/// The state of the buffer.
#[verifier::ext_equal]
pub struct JitterView {
    /// Samples due for playback.
    pub pending: Seq<Sample>,
    /// The packet due next, once one has arrived.
    pub next_seq: Option<u64>,
    /// Blocks that arrived before their turn.
    pub staged: Map<u64, Seq<u8>>,
    pub target_ms: u32,
    pub target_samples: u64,
    pub rate: Option<SampleRate>,
    pub started: bool,
    /// The last frame that arrived in time.
    pub last: Seq<u32>,
    /// When the next sample due was captured.
    pub read_pts_micros: Option<u64>,
    pub stats: Stats,
}

/// A payload's block and, if the header says so, the copy of the block before it
/// that makes up its second half. Nothing where it does not divide into whole
/// frames.
pub open spec fn halves(header: Header, payload: Seq<u8>) -> Option<(Seq<u8>, Option<Seq<u8>>)> {
    let half = payload.len() / 2;
    if payload.len() == 0 || payload.len() % 8 != 0 {
        None
    } else if !header.flagged(flags::HAS_FEC) {
        Some((payload, None))
    } else if half % 8 != 0 {
        None
    } else {
        Some((payload.take(half as int), Some(payload.skip(half as int))))
    }
}

/// How many interleaved samples last `ms` milliseconds.
pub open spec fn samples_for(rate: SampleRate, ms: u32) -> int {
    (rate.frequency() * ms / 1000) * 2
}

/// What is played for a gap: the last frame, held and faded out.
pub open spec fn concealment(last: Seq<u32>, count: nat) -> Seq<Sample> {
    Seq::new(
        2 * (count / 2),
        |k: int|
            Sample {
                bits: last[k % 2],
                fade: if k / 2 < FADE_SAMPLES {
                    (k / 2) as u8
                } else {
                    64
                },
            },
    )
}

impl JitterView {
    /// A buffer that has seen nothing.
    pub open spec fn initial(target_ms: u32) -> JitterView {
        JitterView {
            pending: seq![],
            next_seq: None,
            staged: Map::empty(),
            target_ms,
            target_samples: u64::MAX,
            rate: None,
            started: false,
            last: seq![0u32, 0u32],
            read_pts_micros: None,
            stats: Stats::zero(),
        }
    }

    /// What holds between the steps of taking in a packet: nothing is held that
    /// is already past, every block held is made of whole frames, no more is
    /// counted than packets have gone by, and the speed correction is one that
    /// cannot be heard.
    pub open spec fn sound(self) -> bool {
        &&& self.last.len() == 2
        &&& -MAX_DRIFT_PPM <= self.stats.drift_ppm <= MAX_DRIFT_PPM
        &&& self.staged.dom().finite()
        &&& forall|seq: u64| #[trigger]
            self.staged.contains_key(seq) ==> {
                &&& self.next_seq is Some
                &&& self.next_seq->0 <= seq < u64::MAX
                &&& self.staged[seq].len() > 0
                &&& self.staged[seq].len() % 8 == 0
            }
        &&& match self.next_seq {
            Some(next) => self.stats.concealed <= next && self.stats.recovered <= next
                + self.staged.len(),
            None => self.stats.concealed == 0 && self.stats.recovered == 0,
        }
    }

    /// What every operation keeps: besides, the packet due next is not held, and
    /// at most eight wait for it.
    pub open spec fn valid(self) -> bool {
        &&& self.sound()
        &&& self.next_seq matches Some(next) ==> !self.staged.contains_key(next)
        &&& self.staged.len() <= REORDER_WINDOW
    }

    /// The state with the sender's rate noted. The stream states its rate in every
    /// packet, which also settles how many samples the pre-roll target corresponds
    /// to.
    pub open spec fn tuned(self, header: Header) -> JitterView {
        match header.rate {
            Some(rate) => JitterView {
                rate: Some(rate),
                target_samples: if self.rate == Some(rate) {
                    self.target_samples
                } else {
                    samples_for(rate, self.target_ms) as u64
                },
                ..self
            },
            None => self,
        }
    }

    /// How many frames play before those of packet `seq`: what is due already, and
    /// `frames` for each packet between the next one due and it.
    pub open spec fn frames_before(self, seq: u64, frames: nat) -> nat {
        self.pending.len() / 2 + ((seq - self.next_seq->0) * frames) as nat
    }

    /// The state with the clock set by a packet of `frames` frames that is in
    /// time: the next sample due was captured as much earlier than the packet as
    /// what plays before it lasts.
    pub open spec fn stamped(self, header: Header, frames: nat) -> JitterView {
        match header.rate {
            Some(rate) => {
                let behind = packetize::micros(self.frames_before(header.seq, frames), rate);
                JitterView {
                    read_pts_micros: Some(
                        if behind <= header.pts_micros {
                            (header.pts_micros - behind) as u64
                        } else {
                            0
                        },
                    ),
                    ..self
                }
            },
            None => self,
        }
    }

    /// The state with the packet's block held, and the copy of the block before
    /// it too if that one is due and has not shown up.
    pub open spec fn staging(self, seq: u64, block: Seq<u8>, copy: Option<Seq<u8>>) -> JitterView {
        let expected = self.next_seq->0;
        let held = self.staged.insert(seq, block);
        let previous = (seq - 1) as u64;
        if copy is Some && seq > 0 && previous >= expected && !held.contains_key(previous) {
            JitterView {
                staged: held.insert(previous, copy->0),
                stats: Stats { recovered: (self.stats.recovered + 1) as u64, ..self.stats },
                ..self
            }
        } else {
            JitterView { staged: held, ..self }
        }
    }

    /// The state with `block`, whose turn it is, due for playback.
    pub open spec fn appended(self, block: Seq<u8>) -> JitterView {
        let bits = samples::samples_in(block);
        JitterView {
            pending: self.pending + exact_samples(block),
            last: bits.skip(bits.len() - 2),
            staged: self.staged.remove(self.next_seq->0),
            next_seq: Some((self.next_seq->0 + 1) as u64),
            ..self
        }
    }

    /// The state with the packet whose turn it is given up, and `count` samples
    /// played in its place.
    pub open spec fn concealed(self, count: nat) -> JitterView {
        JitterView {
            pending: self.pending + concealment(self.last, count),
            next_seq: Some((self.next_seq->0 + 1) as u64),
            stats: Stats { concealed: (self.stats.concealed + 1) as u64, ..self.stats },
            ..self
        }
    }

    /// The state once every held block whose turn has come is due for playback.
    /// A missing packet is waited for while at most eight wait behind it; past
    /// that it is treated as lost and concealed.
    pub open spec fn drained(self, count: nat) -> JitterView
        decreases u64::MAX - self.next_seq->0,
    {
        if self.next_seq is None || self.next_seq->0 == u64::MAX {
            self
        } else if self.staged.contains_key(self.next_seq->0) {
            self.appended(self.staged[self.next_seq->0]).drained(count)
        } else if self.staged.len() > REORDER_WINDOW {
            self.concealed(count).drained(count)
        } else {
            self
        }
    }

    /// The state with a packet's rate noted, and playback to start with it if it is
    /// the first.
    pub open spec fn met(self, header: Header) -> JitterView {
        JitterView {
            next_seq: if self.next_seq is None {
                Some(header.seq)
            } else {
                self.next_seq
            },
            ..self.tuned(header)
        }
    }

    /// The state after a packet. One whose turn has passed is counted and says
    /// nothing of the clock.
    pub open spec fn pushed(self, header: Header, payload: Seq<u8>) -> JitterView {
        match halves(header, payload) {
            None => self,
            Some((block, copy)) => {
                let due = self.met(header);
                if header.seq < due.next_seq->0 {
                    JitterView {
                        stats: Stats { late: (self.stats.late + 1) as u64, ..self.stats },
                        ..due
                    }
                } else {
                    due.stamped(header, block.len() / 8).staging(
                        header.seq,
                        block,
                        copy,
                    ).drained(block.len() / 4)
                }
            },
        }
    }
}

pub struct AudioJitter {
    pending: VecDeque<Sample>,
    /// Sequence number we expect to consume next.
    next_seq: Option<u64>,
    /// Packets that arrived before their predecessors, keyed by sequence.
    staged: BTreeMap<u64, Vec<u8>>,
    /// How much to buffer before playback starts. Converted to samples once
    /// the first packet reveals the sender's rate.
    target_ms: u32,
    target_samples: u64,
    /// Learned from the stream, so the sender can pick a rate that matches its
    /// project and avoid a conversion.
    rate: Option<SampleRate>,
    started: bool,
    last: [u32; AUDIO_CHANNELS],
    /// Sender-clock timestamp of the next sample due to be played, which is
    /// what a video frame's timestamp has to be compared against to know
    /// whether the two streams are aligned.
    read_pts_micros: Option<u64>,
    pub stats: Stats,
}

impl AudioJitter {
    pub closed spec fn model(self) -> JitterView {
        JitterView {
            pending: self.pending@,
            next_seq: self.next_seq,
            staged: self.staged@.map_values(|block: Vec<u8>| block@),
            target_ms: self.target_ms,
            target_samples: self.target_samples,
            rate: self.rate,
            started: self.started,
            last: self.last@,
            read_pts_micros: self.read_pts_micros,
            stats: self.stats,
        }
    }

    pub open spec fn valid(self) -> bool {
        self.model().valid()
    }

    /// `target_ms` trades latency against tolerance for network jitter.
    pub fn new(target_ms: u32) -> (jitter: Self)
        ensures
            jitter.valid(),
            jitter.model() == JitterView::initial(target_ms),
    {
        let jitter = AudioJitter {
            pending: VecDeque::new(),
            next_seq: None,
            staged: BTreeMap::new(),
            target_ms,
            target_samples: u64::MAX,
            rate: None,
            started: false,
            last: [0u32;AUDIO_CHANNELS],
            read_pts_micros: None,
            stats: Stats::default(),
        };
        proof {
            assert(jitter.model().staged =~= Map::empty());
            assert(jitter.model().last =~= seq![0u32, 0u32]);
        }
        jitter
    }

    /// Sender-clock timestamp of the audio about to be played.
    pub fn playback_pts_micros(&self) -> (pts: Option<u64>)
        ensures
            pts == self.model().read_pts_micros,
    {
        self.read_pts_micros
    }

    /// The sender's sample rate, once a packet has revealed it.
    pub fn rate(&self) -> (rate: Option<SampleRate>)
        ensures
            rate == self.model().rate,
    {
        self.rate
    }

    /// Interleaved samples currently buffered, for latency reporting.
    pub fn depth(&self) -> (count: usize)
        ensures
            count == self.model().pending.len(),
    {
        self.pending.len()
    }

    /// What was counted so far.
    pub fn counted(&self) -> (stats: Stats)
        ensures
            stats == self.model().stats,
    {
        self.stats
    }

    /// Interleaved samples to buffer before playback starts.
    pub fn target(&self) -> (count: u64)
        ensures
            count == self.model().target_samples,
    {
        self.target_samples
    }

    /// Splits a payload into the current block and, if present, the copy of the
    /// preceding block.
    pub fn split<'a>(header: &Header, payload: &'a [u8]) -> (parts: Option<
        (&'a [u8], Option<&'a [u8]>),
    >)
        ensures
            parts is Some <==> halves(*header, payload@) is Some,
            parts matches Some((block, copy)) ==> halves(*header, payload@) == Some(
                (
                    block@,
                    match copy {
                        Some(c) => Some(c@),
                        None => None,
                    },
                ),
            ),
    {
        let stride: usize = AUDIO_CHANNELS * 4;
        if payload.len() == 0 || payload.len() % stride != 0 {
            return None;
        }
        if !header.has(flags::HAS_FEC) {
            return Some((payload, None));
        }
        let half: usize = payload.len() / 2;
        if half % stride != 0 {
            return None;
        }
        let block = vstd::slice::slice_subrange(payload, 0, half);
        let copy = vstd::slice::slice_subrange(payload, half, payload.len());
        assert(block@ =~= payload@.take(half as int));
        assert(copy@ =~= payload@.skip(half as int));
        Some((block, Some(copy)))
    }

    /// Makes a block due for playback.
    fn append(&mut self, block: &[u8])
        requires
            block@.len() >= 8,
            block@.len() % 8 == 0,
        ensures
            final(self).model() == (JitterView {
                pending: old(self).model().pending + exact_samples(block@),
                last: samples::samples_in(block@).skip(samples::samples_in(block@).len() - 2),
                ..old(self).model()
            }),
            final(self).staged@ == old(self).staged@,
    {
        let ghost all = exact_samples(block@);
        let count: usize = block.len() / 4;
        let mut i: usize = 0;
        assert(self.pending@ =~= old(self).pending@ + all.take(0));
        while i < count
            invariant
                i <= count,
                count == block@.len() / 4,
                all == exact_samples(block@),
                self.pending@ == old(self).pending@ + all.take(i as int),
                self.model() == (JitterView { pending: self.pending@, ..old(self).model() }),
                self.staged@ == old(self).staged@,
            decreases count - i,
        {
            self.pending.push_back(Sample { bits: read_sample(block, i), fade: 0 });
            proof {
                assert(all.take(i + 1) =~= all.take(i as int).push(all[i as int]));
            }
            i = i + 1;
        }
        assert(all.take(i as int) =~= all);
        // Remember the final frame, so concealing a gap can hold it and fade
        // rather than cutting straight to silence.
        self.last[0] = read_sample(block, count - 2);
        self.last[1] = read_sample(block, count - 1);
        proof {
            let bits = samples::samples_in(block@);
            assert(self.last@ =~= bits.skip(bits.len() - 2));
        }
    }

    /// Writes one block's worth of concealment: hold the last sample, fading out.
    fn conceal(&mut self, count: usize)
        requires
            old(self).model().stats.concealed < u64::MAX,
        ensures
            final(self).model() == (JitterView {
                pending: old(self).model().pending + concealment(
                    old(self).model().last,
                    count as nat,
                ),
                stats: Stats {
                    concealed: (old(self).model().stats.concealed + 1) as u64,
                    ..old(self).model().stats
                },
                ..old(self).model()
            }),
            final(self).staged@ == old(self).staged@,
    {
        let ghost all = concealment(self.last@, count as nat);
        let frames: usize = count / AUDIO_CHANNELS;
        let mut i: usize = 0;
        assert(self.pending@ =~= old(self).pending@ + all.take(0));
        while i < frames
            invariant
                i <= frames,
                frames == count / AUDIO_CHANNELS,
                all == concealment(self.last@, count as nat),
                self.last@ == old(self).last@,
                self.pending@ == old(self).pending@ + all.take(2 * i),
                self.model() == (JitterView { pending: self.pending@, ..old(self).model() }),
                self.staged@ == old(self).staged@,
            decreases frames - i,
        {
            let fade: u8 = if i < FADE_SAMPLES {
                i as u8
            } else {
                64
            };
            self.pending.push_back(Sample { bits: self.last[0], fade });
            self.pending.push_back(Sample { bits: self.last[1], fade });
            proof {
                let k = 2 * i;
                assert(all[k] == Sample { bits: self.last@[0], fade });
                assert(all[k + 1] == Sample { bits: self.last@[1], fade });
                assert(all.take(k + 2) =~= all.take(k).push(all[k]).push(all[k + 1]));
                assert(self.pending@ =~= old(self).pending@ + all.take(2 * (i + 1)));
            }
            i = i + 1;
        }
        assert(all.take(2 * i) =~= all);
        self.stats.concealed = self.stats.concealed + 1;
    }
}

proof fn lemma_seqs_bounded(seqs: Set<u64>, low: u64)
    requires
        seqs.finite(),
        forall|seq: u64| seqs.contains(seq) ==> low <= seq < u64::MAX,
    ensures
        seqs.len() <= u64::MAX - low,
{
    let f = |seq: u64| seq as int;
    let image = seqs.map(f);
    let range = vstd::set_lib::set_int_range(low as int, u64::MAX as int);
    vstd::set_lib::lemma_int_range(low as int, u64::MAX as int);
    assert forall|a: u64, b: u64|
        seqs.contains(a) && seqs.contains(b) && #[trigger] f(a) == #[trigger] f(b) implies a
        == b by {}
    vstd::set_lib::lemma_map_size(seqs, image, f);
    assert(image.subset_of(range));
    vstd::set_lib::lemma_len_subset(image, range);
}

impl AudioJitter {
    /// Moves staged packets into the playback buffer, in order.
    ///
    /// Waits for a missing packet only while the backlog is small; past that
    /// the packet is treated as lost and concealed, because continuing to wait
    /// would stall playback for something that is not coming.
    fn drain_staged(&mut self, block_bytes: usize)
        requires
            old(self).model().sound(),
            old(self).model().next_seq is Some,
        ensures
            final(self).valid(),
            final(self).model() == old(self).model().drained((block_bytes / 4) as nat),
    {
        let ghost goal = self.model().drained((block_bytes / 4) as nat);
        loop
            invariant
                self.model().sound(),
                self.model().next_seq is Some,
                goal == self.model().drained((block_bytes / 4) as nat),
            ensures
                self.model().valid(),
                self.model() == goal,
            decreases u64::MAX - self.model().next_seq->0,
        {
            let ghost state = self.model();
            let ghost held = self.staged@;
            let next: u64 = match self.next_seq {
                Some(next) => next,
                None => 0,
            };
            assert(state.staged.dom() =~= held.dom());
            match self.staged.remove(&next) {
                Some(block) => {
                    assert(state.staged.contains_key(next));
                    self.append(block.as_slice());
                    self.next_seq = Some(next + 1);
                    proof {
                        assert(self.model().staged =~= state.staged.remove(next));
                        assert(self.model() =~= state.appended(state.staged[next]));
                    }
                },
                None => {
                    assert(self.staged@ =~= held);
                    if self.staged.len() > REORDER_WINDOW {
                        proof {
                            let some = state.staged.dom().choose();
                            assert(state.staged.contains_key(some));
                        }
                        self.conceal(block_bytes / 4);
                        self.next_seq = Some(next + 1);
                        assert(self.model() =~= state.concealed((block_bytes / 4) as nat));
                    } else {
                        break;
                    }
                },
            }
        }
    }

    /// Sets the clock by a packet that is in time: the next sample due was captured
    /// as much earlier than the packet as what is queued, and what is missing or
    /// held between, lasts.
    fn stamp(&mut self, header: &Header, expected: u64, frames: usize)
        requires
            old(self).next_seq == Some(expected),
            expected <= header.seq,
        ensures
            final(self).model() == old(self).model().stamped(*header, frames as nat),
            final(self).staged@ == old(self).staged@,
            final(self).next_seq == old(self).next_seq,
    {
        if let Some(rate) = header.rate {
            let hz: u128 = rate.hz() as u128;
            let between: u128 = (header.seq - expected) as u128;
            proof {
                assert(between * frames <= 0xffff_ffff_ffff_ffff * 0xffff_ffff_ffff_ffff)
                    by (nonlinear_arith)
                    requires
                        0 <= between <= 0xffff_ffff_ffff_ffff,
                        0 <= frames <= 0xffff_ffff_ffff_ffff,
                ;
            }
            let missing: u128 = between * frames as u128;
            let queued: u128 = (self.pending.len() / AUDIO_CHANNELS) as u128;
            let before: u128 = queued + missing;
            // A frame lasts at least a microsecond.
            let behind: u128 = if before > u64::MAX as u128 {
                before
            } else {
                before * 1_000_000 / hz
            };
            proof {
                assert(before == self.model().frames_before(header.seq, frames as nat));
                assert(before * 1_000_000 / hz as int >= before) by (nonlinear_arith)
                    requires
                        0 <= before,
                        0 < hz <= 1_000_000,
                ;
            }
            self.read_pts_micros = Some(
                if behind <= header.pts_micros as u128 {
                    header.pts_micros - behind as u64
                } else {
                    0
                },
            );
        }
        assert(self.model() =~= old(self).model().stamped(*header, frames as nat));
    }

    /// Holds a packet's block by its sequence number, and the copy of the block
    /// before it too if that one is due and has not shown up.
    fn stage(&mut self, seq: u64, expected: u64, block: &[u8], copy: Option<&[u8]>)
        requires
            old(self).model().sound(),
            old(self).next_seq == Some(expected),
            expected <= seq < u64::MAX,
            block@.len() > 0,
            block@.len() % 8 == 0,
            copy matches Some(c) ==> c@.len() > 0 && c@.len() % 8 == 0,
        ensures
            final(self).model() == old(self).model().staging(
                seq,
                block@,
                match copy {
                    Some(c) => Some(c@),
                    None => None,
                },
            ),
    {
        let ghost due = self.model();
        let ghost held = self.staged@;

        // Hold the packet by sequence, so reordering is absorbed.
        self.staged.insert(seq, vstd::slice::slice_to_vec(block));
        proof {
            assert(self.model().staged =~= due.staged.insert(seq, block@));
            assert(due.staged.dom() =~= held.dom());
        }

        // The previous packet's copy rides along; keep it if that packet has
        // not shown up, which is what makes an isolated loss free to repair.
        if let Some(copy) = copy {
            if seq > 0 {
                let previous: u64 = seq - 1;
                if previous >= expected && !self.staged.contains_key(&previous) {
                    let ghost before = self.model();
                    self.staged.insert(previous, vstd::slice::slice_to_vec(copy));
                    proof {
                        assert(self.model().staged =~= before.staged.insert(previous, copy@));
                        lemma_seqs_bounded(self.model().staged.dom(), expected);
                    }
                    self.stats.recovered = self.stats.recovered + 1;
                }
            }
        }
        assert(self.model() =~= due.staging(
            seq,
            block@,
            match copy {
                Some(c) => Some(c@),
                None => None,
            },
        ));
    }

    #[verifier::rlimit(30)]
    pub fn push(&mut self, header: Header, payload: &[u8])
        requires
            old(self).valid(),
            header.seq < u64::MAX,
            old(self).model().can_push(),
        ensures
            final(self).valid(),
            final(self).model() == old(self).model().pushed(header, payload@),
    {
        let ghost state = self.model();
        let (current, copy) = match AudioJitter::split(&header, payload) {
            Some(parts) => parts,
            None => {
                return;
            },
        };

        // The stream states its rate in every packet, which also settles how
        // many samples the pre-roll target corresponds to.
        if let Some(rate) = header.rate {
            let hz: u64 = rate.hz() as u64;
            if self.rate != Some(rate) {
                self.rate = Some(rate);
                proof {
                    assert(hz * self.target_ms <= 96_000 * 0xffff_ffff) by (nonlinear_arith)
                        requires
                            hz <= 96_000,
                            self.target_ms <= 0xffff_ffff,
                    ;
                }
                let frames: u64 = hz * self.target_ms as u64 / 1000;
                self.target_samples = frames * AUDIO_CHANNELS as u64;
            }
        }
        assert(self.model() =~= state.tuned(header));

        let expected: u64 = match self.next_seq {
            Some(next) => next,
            None => header.seq,
        };
        self.next_seq = Some(expected);
        assert(self.model() =~= state.met(header));
        if header.seq < expected {
            // Too late to use: this audio has already been played past.
            self.stats.late = self.stats.late + 1;
            return;
        }
        self.stamp(&header, expected, current.len() / (AUDIO_CHANNELS * 4));

        self.stage(header.seq, expected, current, copy);
        self.drain_staged(current.len());
    }
}

/// Whether playback may go on.
#[derive(Debug, Clone, Copy, PartialEq, Eq, Structural)]
pub enum Gate {
    /// Not enough is buffered yet: play silence.
    Waiting,
    /// Enough is buffered now: playback starts.
    Opened,
    /// Playback is going on.
    Running,
}

/// The samples that one frame of playback is read between, per channel: the
/// frame at or before the reading position, and the frame after it.
#[derive(Debug, Clone, Copy, PartialEq, Eq)]
pub struct Taps {
    pub left: (Sample, Sample),
    pub right: (Sample, Sample),
}

impl JitterView {
    /// Whether playback may go on.
    pub open spec fn gate(self) -> Gate {
        if self.started {
            Gate::Running
        } else if self.pending.len() < self.target_samples {
            Gate::Waiting
        } else {
            Gate::Opened
        }
    }

    /// The state once playback had its chance to open.
    pub open spec fn gated(self) -> JitterView {
        JitterView { started: self.gate() != Gate::Waiting, ..self }
    }

    /// The state once the audio has run out: everything restarts with the next
    /// block that arrives, and buffers again rather than limping along.
    pub open spec fn starved(self) -> JitterView {
        JitterView {
            pending: seq![],
            read_pts_micros: None,
            started: false,
            stats: Stats { underruns: (self.stats.underruns + 1) as u64, ..self.stats },
            ..self
        }
    }

    /// The state with `count` samples gone, which lasted `frames` on the sender's
    /// clock.
    pub open spec fn consumed(self, count: int, frames: nat) -> JitterView {
        JitterView {
            pending: self.pending.skip(count),
            read_pts_micros: if self.read_pts_micros is Some && self.rate is Some {
                Some((self.read_pts_micros->0 + packetize::micros(frames, self.rate->0)) as u64)
            } else {
                self.read_pts_micros
            },
            ..self
        }
    }

    /// The state with the playback speed correction noted.
    pub open spec fn corrected(self, drift_ppm: i32) -> JitterView {
        JitterView { stats: Stats { drift_ppm, ..self.stats }, ..self }
    }

    /// The state after `wanted` samples were asked for, and the samples to play.
    pub open spec fn pulled(self, wanted: nat) -> (JitterView, Seq<Sample>) {
        let ready = self.gated().corrected(0);
        if self.gate() == Gate::Waiting {
            (self, silence(wanted))
        } else if ready.pending.len() < wanted {
            (ready.starved(), ready.pending + silence((wanted - ready.pending.len()) as nat))
        } else {
            (ready.consumed(wanted as int, wanted / 2), ready.pending.take(wanted as int))
        }
    }

    /// The samples to read between at a reading position.
    pub open spec fn taps_at(self, position: int) -> Taps {
        Taps {
            left: (self.pending[2 * position], self.pending[2 * position + 2]),
            right: (self.pending[2 * position + 1], self.pending[2 * position + 3]),
        }
    }

    /// Whether the frame at a reading position and the one after it are there.
    pub open spec fn reaches(self, position: int) -> bool {
        2 * (position + 2) <= self.pending.len()
    }

    /// How many of the reading positions come before the first that the buffer
    /// does not reach.
    pub open spec fn reached(self, positions: Seq<usize>) -> nat
        decreases positions.len(),
    {
        if positions.len() == 0 || !self.reaches(positions.first() as int) {
            0
        } else {
            1 + self.reached(positions.drop_first())
        }
    }

    /// The state after playback at an adjusted speed read at `positions` and
    /// moved on by `advance` frames, and what to read between.
    pub open spec fn resampled(self, positions: Seq<usize>, advance: nat, drift_ppm: i32) -> (
        JitterView,
        Seq<Taps>,
    ) {
        let ready = self.corrected(drift_ppm);
        let n = ready.reached(positions);
        let taps = Seq::new(n, |i: int| ready.taps_at(positions[i] as int));
        if n < positions.len() {
            (ready.starved(), taps)
        } else {
            let gone = if 2 * advance <= ready.pending.len() {
                2 * advance
            } else {
                ready.pending.len()
            };
            (ready.consumed(gone as int, advance), taps)
        }
    }

    /// Whether the clock can still be moved on by `frames`.
    pub open spec fn clock_reaches(self, frames: nat) -> bool {
        &&& frames * 1_000_000 <= u64::MAX
        &&& self.read_pts_micros is Some && self.rate is Some ==> self.read_pts_micros->0
            + packetize::micros(frames, self.rate->0) <= u64::MAX
    }

    /// Whether the counters can take in one more packet.
    pub open spec fn can_push(self) -> bool {
        self.stats.late < u64::MAX
    }

    /// Whether the counters and the clock allow `frames` more to be played.
    pub open spec fn can_pull(self, frames: nat) -> bool {
        &&& self.stats.underruns < u64::MAX
        &&& self.clock_reaches(frames)
    }
}

impl AudioJitter {
    /// Whether the counters can take in one more packet.
    pub fn can_push(&self) -> (fits: bool)
        ensures
            fits == self.model().can_push(),
    {
        self.stats.late < u64::MAX
    }

    /// Whether the counters and the clock allow `frames` more to be played.
    pub fn can_pull(&self, frames: usize) -> (fits: bool)
        ensures
            fits == self.model().can_pull(frames as nat),
    {
        let scaled: u128 = frames as u128 * 1_000_000;
        if self.stats.underruns == u64::MAX || scaled > u64::MAX as u128 {
            return false;
        }
        match (self.read_pts_micros, self.rate) {
            (Some(pts), Some(rate)) => pts as u128 + scaled / rate.hz() as u128 <= u64::MAX as u128,
            _ => true,
        }
    }

    /// Opens playback once enough is buffered that normal jitter will not starve
    /// it.
    pub fn begin(&mut self) -> (gate: Gate)
        requires
            old(self).valid(),
        ensures
            final(self).valid(),
            final(self).model() == old(self).model().gated(),
            gate == old(self).model().gate(),
    {
        if self.started {
            return Gate::Running;
        }
        if (self.pending.len() as u64) < self.target_samples {
            return Gate::Waiting;
        }
        self.started = true;
        Gate::Opened
    }

    /// Hands over `wanted` interleaved samples as they arrived, padding with
    /// silence where the buffer has not opened or runs out.
    pub fn pull(&mut self, wanted: usize) -> (out: Vec<Sample>)
        requires
            old(self).valid(),
            old(self).model().can_pull((wanted / 2) as nat),
        ensures
            final(self).valid(),
            final(self).model() == old(self).model().pulled(wanted as nat).0,
            out@ == old(self).model().pulled(wanted as nat).1,
    {
        let ghost state = self.model();
        let mut out: Vec<Sample> = Vec::new();
        if let Gate::Waiting = self.begin() {
            push_silence(&mut out, wanted);
            assert(out@ =~= silence(wanted as nat));
            return out;
        }
        self.stats.drift_ppm = 0;
        let ghost ready = self.model();
        assert(ready =~= state.gated().corrected(0));
        let available: usize = if self.pending.len() < wanted {
            self.pending.len()
        } else {
            wanted
        };
        self.take_front(available, &mut out);
        if available < wanted {
            push_silence(&mut out, wanted - available);
            self.starve();
            assert(out@ =~= ready.pending + silence((wanted - available) as nat));
            assert(self.model() =~= ready.starved());
            return out;
        }
        self.move_clock((available / AUDIO_CHANNELS) as u64);
        assert(self.model() =~= ready.consumed(wanted as int, wanted as nat / 2));
        out
    }

    /// Hands over what playback at an adjusted speed reads between.
    ///
    /// `positions` are the frames that successive frames of playback start
    /// reading at, and `advance` the frames that have been read past once all of
    /// them are. The result is as long as the buffer reaches; where that is short
    /// of `positions` the audio has run out, and the rest is silence.
    ///
    /// `drift_ppm` is the correction that is being played at. There is one: audio
    /// that is played as it came is [`pull`]ed.
    ///
    /// [`pull`]: AudioJitter::pull
    pub fn pull_resampled(&mut self, positions: &[usize], advance: usize, drift_ppm: i32) -> (out:
        Vec<Taps>)
        requires
            old(self).valid(),
            old(self).model().can_pull(advance as nat),
            drift_ppm != 0,
            -MAX_DRIFT_PPM <= drift_ppm <= MAX_DRIFT_PPM,
        ensures
            final(self).valid(),
            final(self).model() == old(self).model().resampled(
                positions@,
                advance as nat,
                drift_ppm,
            ).0,
            out@ == old(self).model().resampled(positions@, advance as nat, drift_ppm).1,
    {
        self.stats.drift_ppm = drift_ppm;
        let ghost ready = self.model();
        assert(ready =~= old(self).model().corrected(drift_ppm));
        let depth: usize = self.pending.len();
        let frames: usize = depth / AUDIO_CHANNELS;
        let mut out: Vec<Taps> = Vec::new();
        let mut i: usize = 0;
        assert(positions@.skip(0) =~= positions@);
        while i < positions.len()
            invariant
                i <= positions@.len(),
                depth == self.pending@.len(),
                frames == depth / 2,
                self.model() == ready,
                ready.valid(),
                ready.stats.underruns < u64::MAX,
                ready == old(self).model().corrected(drift_ppm),
                ready.reached(positions@) == i + ready.reached(positions@.skip(i as int)),
                out@.len() == i,
                forall|k: int|
                    0 <= k < i ==> #[trigger] out@[k] == ready.taps_at(positions@[k] as int),
            decreases positions@.len() - i,
        {
            let position: usize = positions[i];
            proof {
                let rest = positions@.skip(i as int);
                assert(rest.first() == position);
                assert(rest.drop_first() =~= positions@.skip(i + 1));
            }
            // Reading between two frames needs the frame after the one read at.
            if frames < 2 || position > frames - 2 {
                self.starve();
                assert(self.model() =~= ready.starved());
                assert(out@ =~= Seq::new(
                    ready.reached(positions@),
                    |k: int| ready.taps_at(positions@[k] as int),
                ));
                return out;
            }
            let at: usize = position * AUDIO_CHANNELS;
            out.push(
                Taps {
                    left: (self.pending[at], self.pending[at + 2]),
                    right: (self.pending[at + 1], self.pending[at + 3]),
                },
            );
            i = i + 1;
        }
        proof {
            assert(positions@.skip(i as int) =~= seq![]);
            assert(out@ =~= Seq::new(
                ready.reached(positions@),
                |k: int| ready.taps_at(positions@[k] as int),
            ));
        }
        // Discard whole frames that have been read past.
        let gone: usize = if advance <= frames {
            advance * AUDIO_CHANNELS
        } else {
            depth
        };
        let mut dropped: Vec<Sample> = Vec::new();
        self.take_front(gone, &mut dropped);
        self.move_clock(advance as u64);
        proof {
            if advance <= frames {
                assert(gone == 2 * advance);
            }
            let due = if 2 * advance <= ready.pending.len() {
                2 * advance as int
            } else {
                ready.pending.len() as int
            };
            assert(ready.pending.skip(gone as int) =~= ready.pending.skip(due));
            assert(self.model() =~= ready.consumed(due, advance as nat));
        }
        out
    }

    /// Moves `count` samples from the front of the buffer to `out`.
    fn take_front(&mut self, count: usize, out: &mut Vec<Sample>)
        requires
            count <= old(self).model().pending.len(),
        ensures
            final(self).model() == (JitterView {
                pending: old(self).model().pending.skip(count as int),
                ..old(self).model()
            }),
            final(out)@ == old(out)@ + old(self).model().pending.take(count as int),
    {
        let ghost all = self.pending@;
        let mut i: usize = 0;
        assert(self.pending@ =~= all.skip(0));
        assert(out@ =~= old(out)@ + all.take(0));
        while i < count
            invariant
                i <= count <= all.len(),
                all == old(self).model().pending,
                self.pending@ == all.skip(i as int),
                self.model() == (JitterView { pending: self.pending@, ..old(self).model() }),
                out@ == old(out)@ + all.take(i as int),
            decreases count - i,
        {
            if let Some(sample) = self.pending.pop_front() {
                out.push(sample);
            }
            proof {
                assert(self.pending@ =~= all.skip(i + 1));
                assert(out@ =~= old(out)@ + all.take(i + 1));
            }
            i = i + 1;
        }
    }

    /// Moves the playback timestamp on by `frames`. It lives on the sender's
    /// timeline, so it moves by the frames consumed rather than the frames
    /// produced. Those differ whenever drift is being corrected.
    fn move_clock(&mut self, frames: u64)
        requires
            old(self).model().clock_reaches(frames as nat),
        ensures
            final(self).model() == old(self).model().consumed(0, frames as nat),
    {
        assert(self.pending@.skip(0) =~= self.pending@);
        if let (Some(pts), Some(rate)) = (self.read_pts_micros, self.rate) {
            self.read_pts_micros = Some(pts + frames * 1_000_000 / rate.hz() as u64);
        }
        assert(self.model() =~= old(self).model().consumed(0, frames as nat));
    }

    /// Handles running out of audio: drop the timeline and buffer again.
    fn starve(&mut self)
        requires
            old(self).model().stats.underruns < u64::MAX,
        ensures
            final(self).model() == old(self).model().starved(),
    {
        self.stats.underruns = self.stats.underruns + 1;
        self.pending.clear();
        self.read_pts_micros = None;
        self.started = false;
    }
}

/// Appends `count` samples of silence.
fn push_silence(out: &mut Vec<Sample>, count: usize)
    ensures
        final(out)@ == old(out)@ + silence(count as nat),
{
    let mut i: usize = 0;
    assert(out@ =~= old(out)@ + silence(0));
    while i < count
        invariant
            i <= count,
            out@ == old(out)@ + silence(i as nat),
        decreases count - i,
    {
        out.push(Sample { bits: 0, fade: 0 });
        i = i + 1;
        assert(out@ =~= old(out)@ + silence(i as nat));
    }
}

/// The audio of the packets from `from` up to `to`, as it was sent.
pub open spec fn played(stream: spec_fn(u64) -> Seq<u8>, from: int, to: int) -> Seq<Sample>
    decreases to - from,
{
    if to <= from {
        seq![]
    } else {
        played(stream, from, to - 1) + exact_samples(stream((to - 1) as u64))
    }
}

/// Whether a packet carries its block of the stream and, if it carries a copy,
/// the block before it.
pub open spec fn is_true(stream: spec_fn(u64) -> Seq<u8>, header: Header, payload: Seq<u8>) -> bool {
    halves(header, payload) matches Some((block, copy)) && block == stream(header.seq) && (
    copy is Some && header.seq > 0 ==> copy->0 == stream((header.seq - 1) as u64))
}

/// Whether every block that is held is the stream's.
pub open spec fn holds_truth(state: JitterView, stream: spec_fn(u64) -> Seq<u8>) -> bool {
    forall|seq: u64| #[trigger]
        state.staged.contains_key(seq) ==> state.staged[seq] == stream(seq)
}

proof fn lemma_played_split(stream: spec_fn(u64) -> Seq<u8>, from: int, middle: int, to: int)
    requires
        from <= middle <= to,
    ensures
        played(stream, from, to) == played(stream, from, middle) + played(stream, middle, to),
    decreases to - middle,
{
    if middle < to {
        lemma_played_split(stream, from, middle, to - 1);
        assert(played(stream, from, to) =~= played(stream, from, middle) + played(
            stream,
            middle,
            to,
        ));
    } else {
        assert(played(stream, from, middle) + played(stream, middle, to) =~= played(
            stream,
            from,
            middle,
        ));
    }
}

/// Draining plays the held blocks in order, conceals only while more than eight
/// wait, and never counts a repair or a late packet.
proof fn lemma_drained(state: JitterView, stream: spec_fn(u64) -> Seq<u8>, count: nat)
    requires
        state.next_seq is Some,
        holds_truth(state, stream),
        state.staged.dom().finite(),
        state.sound(),
    ensures
        ({
            let after = state.drained(count);
            &&& holds_truth(after, stream)
            &&& after.next_seq is Some
            &&& after.next_seq->0 >= state.next_seq->0
            &&& after.stats.concealed >= state.stats.concealed
            &&& after.stats.concealed == state.stats.concealed ==> after.pending == state.pending
                + played(stream, state.next_seq->0 as int, after.next_seq->0 as int)
            &&& state.staged.len() <= REORDER_WINDOW ==> after.stats.concealed
                == state.stats.concealed
            &&& after.stats.recovered == state.stats.recovered
            &&& after.stats.late == state.stats.late
        }),
    decreases u64::MAX - state.next_seq->0,
{
    let next = state.next_seq->0;
    assert(state.pending + played(stream, next as int, next as int) =~= state.pending);
    if next == u64::MAX {
    } else if state.staged.contains_key(next) {
        let step = state.appended(state.staged[next]);
        let bits = samples::samples_in(state.staged[next]);
        assert(step.sound());
        assert(forall|seq: u64| #[trigger]
            step.staged.contains_key(seq) ==> state.staged.contains_key(seq));
        lemma_drained(step, stream, count);
        let after = state.drained(count);
        if after.stats.concealed == state.stats.concealed {
            let end = after.next_seq->0 as int;
            lemma_played_split(stream, next as int, next + 1, end);
            assert(played(stream, next as int, next + 1) =~= exact_samples(stream(next)));
            assert(after.pending =~= state.pending + played(stream, next as int, end));
        }
    } else if state.staged.len() > REORDER_WINDOW {
        let some = state.staged.dom().choose();
        assert(state.staged.contains_key(some));
        let step = state.concealed(count);
        assert(step.sound());
        lemma_drained(step, stream, count);
    }
}

/// Where playback would go on, for a packet that may be the first.
pub open spec fn due_at(state: JitterView, header: Header) -> u64 {
    if state.next_seq is Some {
        state.next_seq->0
    } else {
        header.seq
    }
}

/// Unless a packet was concealed, what becomes due for playback is exactly what
/// was sent, in order, with nothing left out or played twice: however late,
/// early or often the packets come.
pub proof fn law_audio_is_exact_unless_concealed(
    state: JitterView,
    stream: spec_fn(u64) -> Seq<u8>,
    header: Header,
    payload: Seq<u8>,
)
    requires
        state.valid(),
        holds_truth(state, stream),
        is_true(stream, header, payload),
        header.seq < u64::MAX,
    ensures
        ({
            let after = state.pushed(header, payload);
            let from = due_at(state, header);
            &&& holds_truth(after, stream)
            &&& after.next_seq is Some
            &&& after.next_seq->0 >= from
            &&& after.stats.concealed >= state.stats.concealed
            &&& after.stats.concealed == state.stats.concealed ==> after.pending == state.pending
                + played(stream, from as int, after.next_seq->0 as int)
        }),
{
    let (block, copy) = halves(header, payload)->0;
    let due = state.met(header).stamped(header, block.len() / 8);
    let from = due_at(state, header);
    if header.seq < from {
        assert(state.pending + played(stream, from as int, from as int) =~= state.pending);
    } else {
        let staging = due.staging(header.seq, block, copy);
        lemma_staging_is_sound(due, header.seq, block, copy);
        assert(holds_truth(staging, stream));
        lemma_drained(staging, stream, block.len() / 4);
    }
}

proof fn lemma_staging_is_sound(
    due: JitterView,
    seq: u64,
    block: Seq<u8>,
    copy: Option<Seq<u8>>,
)
    requires
        due.sound(),
        due.next_seq is Some,
        due.next_seq->0 <= seq < u64::MAX,
        block.len() > 0,
        block.len() % 8 == 0,
        copy matches Some(c) ==> c.len() > 0 && c.len() % 8 == 0,
    ensures
        due.staging(seq, block, copy).sound(),
{
    let staging = due.staging(seq, block, copy);
    assert(staging.staged.dom().finite());
    assert forall|s: u64| #[trigger] staging.staged.contains_key(s) implies {
        &&& due.next_seq->0 <= s < u64::MAX
        &&& staging.staged[s].len() > 0
        &&& staging.staged[s].len() % 8 == 0
    } by {
        if due.staged.contains_key(s) {}
    }
    lemma_seqs_bounded(staging.staged.dom(), due.next_seq->0);
}

/// How many blocks are held with a packet's own and, where it is kept, its copy.
pub open spec fn waiting_with(state: JitterView, header: Header, payload: Seq<u8>) -> nat {
    let (block, copy) = halves(header, payload)->0;
    (JitterView { next_seq: Some(due_at(state, header)), ..state }).staging(
        header.seq,
        block,
        copy,
    ).staged.len()
}

/// Reordering is not loss: a packet that leaves at most eight waiting conceals
/// nothing.
pub proof fn law_reordering_is_not_loss(
    state: JitterView,
    stream: spec_fn(u64) -> Seq<u8>,
    header: Header,
    payload: Seq<u8>,
)
    requires
        state.valid(),
        holds_truth(state, stream),
        is_true(stream, header, payload),
        header.seq < u64::MAX,
        waiting_with(state, header, payload) <= REORDER_WINDOW,
    ensures
        state.pushed(header, payload).stats.concealed == state.stats.concealed,
{
    let (block, copy) = halves(header, payload)->0;
    let due = state.met(header).stamped(header, block.len() / 8);
    if header.seq >= due_at(state, header) {
        let staging = due.staging(header.seq, block, copy);
        lemma_staging_is_sound(due, header.seq, block, copy);
        assert(holds_truth(staging, stream));
        lemma_drained(staging, stream, block.len() / 4);
    }
}

/// A packet whose turn has passed, a duplicate among them, injects no audio and
/// leaves the clock alone.
pub proof fn law_late_packets_are_dropped(state: JitterView, header: Header, payload: Seq<u8>)
    requires
        halves(header, payload) is Some,
        state.next_seq matches Some(next) && header.seq < next,
    ensures
        ({
            let after = state.pushed(header, payload);
            &&& after.pending == state.pending
            &&& after.staged == state.staged
            &&& after.next_seq == state.next_seq
            &&& after.read_pts_micros == state.read_pts_micros
            &&& after.stats == (Stats { late: (state.stats.late + 1) as u64, ..state.stats })
        }),
{
}

/// Whether every block held lasts `frames` frames, and whole frames are due.
pub open spec fn is_uniform(state: JitterView, frames: nat) -> bool {
    &&& state.pending.len() % 2 == 0
    &&& forall|seq: u64| #[trigger]
        state.staged.contains_key(seq) ==> state.staged[seq].len() == 8 * frames
}

/// Which frame of the stream is played next, in a stream of packets that last
/// `frames` frames each: those of the packets up to the next one due, less what is
/// due still.
pub open spec fn position(state: JitterView, frames: nat) -> int {
    state.next_seq->0 * frames - state.pending.len() / 2
}

proof fn lemma_drained_keeps_position(state: JitterView, frames: nat)
    requires
        state.next_seq is Some,
        state.sound(),
        is_uniform(state, frames),
    ensures
        ({
            let after = state.drained(2 * frames);
            &&& after.next_seq is Some
            &&& is_uniform(after, frames)
            &&& position(after, frames) == position(state, frames)
            &&& after.read_pts_micros == state.read_pts_micros
        }),
    decreases u64::MAX - state.next_seq->0,
{
    let next = state.next_seq->0;
    assert((next + 1) * frames == next * frames + frames) by (nonlinear_arith);
    if next == u64::MAX {
    } else if state.staged.contains_key(next) {
        let step = state.appended(state.staged[next]);
        assert(exact_samples(state.staged[next]).len() == 2 * frames);
        assert(forall|seq: u64| #[trigger]
            step.staged.contains_key(seq) ==> state.staged.contains_key(seq));
        assert(step.sound());
        lemma_drained_keeps_position(step, frames);
    } else if state.staged.len() > REORDER_WINDOW {
        let some = state.staged.dom().choose();
        assert(state.staged.contains_key(some));
        let step = state.concealed(2 * frames);
        assert(step.sound());
        lemma_drained_keeps_position(step, frames);
    }
}

/// Playback is stamped with the capture time of the very next frame: a packet that
/// is in time puts the clock as far before its own timestamp as its first frame is
/// ahead of the one played next, however much is queued, held or missing between.
/// No packet moves the place of playback.
pub proof fn law_the_clock_is_that_of_the_next_frame(
    state: JitterView,
    frames: nat,
    header: Header,
    payload: Seq<u8>,
)
    requires
        state.valid(),
        is_uniform(state, frames),
        halves(header, payload) is Some,
        (halves(header, payload)->0).0.len() == 8 * frames,
        header.seq < u64::MAX,
        header.rate is Some,
    ensures
        ({
            let before = state.met(header);
            let after = state.pushed(header, payload);
            let ahead = header.seq * frames - position(before, frames);
            let behind = packetize::micros(ahead as nat, header.rate->0);
            &&& is_uniform(after, frames)
            &&& position(after, frames) == position(before, frames)
            &&& header.seq >= before.next_seq->0 ==> ahead >= 0 && after.read_pts_micros == Some(
                if behind <= header.pts_micros {
                    (header.pts_micros - behind) as u64
                } else {
                    0
                },
            )
            &&& header.seq < before.next_seq->0 ==> after.read_pts_micros == state.read_pts_micros
        }),
{
    let (block, copy) = halves(header, payload)->0;
    let before = state.met(header);
    let next = before.next_seq->0;
    if header.seq >= next {
        let due = before.stamped(header, block.len() / 8);
        let staging = due.staging(header.seq, block, copy);
        lemma_staging_is_sound(due, header.seq, block, copy);
        assert((header.seq - next) * frames == header.seq * frames - next * frames)
            by (nonlinear_arith);
        assert(0 <= (header.seq - next) * frames) by (nonlinear_arith)
            requires
                header.seq >= next,
        ;
        assert(is_uniform(staging, frames));
        lemma_drained_keeps_position(staging, frames);
    }
}

/// A payload that is not made of whole frames changes nothing.
pub proof fn law_malformed_payloads_are_ignored(state: JitterView, header: Header, payload: Seq<u8>)
    requires
        payload.len() == 0 || payload.len() % 8 != 0 || (header.flagged(flags::HAS_FEC)
            && payload.len() % 16 != 0),
    ensures
        state.pushed(header, payload) == state,
{
    let half = payload.len() / 2;
    if payload.len() % 8 == 0 && payload.len() % 16 != 0 {
        assert(half % 8 != 0);
    }
}

/// A correction is always within a thousand parts per million, and where none is
/// reported none is made: while playback runs and enough is buffered, audio that is
/// played with a correction of zero is the next of what is buffered, bit for bit,
/// and the buffer falls by just as much.
pub proof fn law_no_correction_means_exact_audio(
    state: JitterView,
    wanted: nat,
    positions: Seq<usize>,
    advance: nat,
    drift_ppm: i32,
)
    requires
        state.valid(),
        state.gate() != Gate::Waiting,
        wanted <= state.pending.len(),
        drift_ppm != 0,
        -MAX_DRIFT_PPM <= drift_ppm <= MAX_DRIFT_PPM,
    ensures
        ({
            let (exact, out) = state.pulled(wanted);
            let (corrected, taps) = state.resampled(positions, advance, drift_ppm);
            &&& exact.stats.drift_ppm == 0
            &&& out == state.pending.take(wanted as int)
            &&& exact.pending == state.pending.skip(wanted as int)
            &&& corrected.stats.drift_ppm == drift_ppm
            &&& -MAX_DRIFT_PPM <= exact.stats.drift_ppm <= MAX_DRIFT_PPM
            &&& -MAX_DRIFT_PPM <= corrected.stats.drift_ppm <= MAX_DRIFT_PPM
            &&& -MAX_DRIFT_PPM <= state.stats.drift_ppm <= MAX_DRIFT_PPM
        }),
{
}

/// Samples come out of the buffer in the order they went in: asking twice gives
/// what asking once for both would.
pub proof fn law_pulls_follow_each_other(state: JitterView, first: nat, second: nat)
    requires
        state.started,
        first + second <= state.pending.len(),
    ensures
        state.pulled(first).1 + state.pulled(first).0.pulled(second).1 == state.pulled(
            first + second,
        ).1,
        state.pulled(first).0.pulled(second).0.pending == state.pulled(first + second).0.pending,
{
    assert(state.pulled(first).1 + state.pulled(first).0.pulled(second).1 =~= state.pulled(
        first + second,
    ).1);
    assert(state.pulled(first).0.pulled(second).0.pending =~= state.pulled(
        first + second,
    ).0.pending);
}

/// The state after several packets.
pub open spec fn after_packets(state: JitterView, packets: Seq<(Header, Seq<u8>)>) -> JitterView
    decreases packets.len(),
{
    if packets.len() == 0 {
        state
    } else {
        after_packets(state, packets.drop_last()).pushed(packets.last().0, packets.last().1)
    }
}

/// Playing what is due keeps the buffer sound.
proof fn lemma_drained_is_sound(state: JitterView, count: nat)
    requires
        state.next_seq is Some,
        state.sound(),
    ensures
        state.drained(count).sound(),
    decreases u64::MAX - state.next_seq->0,
{
    let next = state.next_seq->0;
    if next == u64::MAX {
    } else if state.staged.contains_key(next) {
        let step = state.appended(state.staged[next]);
        assert(forall|seq: u64| #[trigger]
            step.staged.contains_key(seq) ==> state.staged.contains_key(seq));
        assert(step.sound());
        lemma_drained_is_sound(step, count);
    } else if state.staged.len() > REORDER_WINDOW {
        let some = state.staged.dom().choose();
        assert(state.staged.contains_key(some));
        let step = state.concealed(count);
        assert(step.sound());
        lemma_drained_is_sound(step, count);
    }
}

/// A block alone in the buffer, whose turn it is, plays at once.
proof fn lemma_one_block_plays(state: JitterView, block: Seq<u8>, count: nat)
    requires
        state.next_seq is Some,
        state.next_seq->0 < u64::MAX,
        state.staged == Map::<u64, Seq<u8>>::empty().insert(state.next_seq->0, block),
    ensures
        state.drained(count) == state.appended(block),
        state.appended(block).staged == Map::<u64, Seq<u8>>::empty(),
{
    let after = state.appended(block);
    assert(state.staged[state.next_seq->0] == block);
    assert(after.staged =~= Map::<u64, Seq<u8>>::empty());
    assert(after.drained(count) == after);
}

/// Two blocks alone in the buffer, whose turns are next, play at once.
proof fn lemma_two_blocks_play(state: JitterView, first: Seq<u8>, second: Seq<u8>, count: nat)
    requires
        state.next_seq is Some,
        state.next_seq->0 < u64::MAX - 1,
        state.staged == Map::<u64, Seq<u8>>::empty().insert(
            (state.next_seq->0 + 1) as u64,
            second,
        ).insert(state.next_seq->0, first),
    ensures
        state.drained(count) == state.appended(first).appended(second),
        state.appended(first).appended(second).staged == Map::<u64, Seq<u8>>::empty(),
{
    let one = state.appended(first);
    assert(state.staged[state.next_seq->0] == first);
    assert(one.staged =~= Map::<u64, Seq<u8>>::empty().insert(one.next_seq->0, second));
    lemma_one_block_plays(one, second, count);
}

/// A packet whose turn it is plays at once; so does one that is one early and
/// brings the copy of the one that is missing.
proof fn lemma_timely_packet(
    state: JitterView,
    stream: spec_fn(u64) -> Seq<u8>,
    header: Header,
    payload: Seq<u8>,
)
    requires
        state.valid(),
        state.staged == Map::<u64, Seq<u8>>::empty(),
        is_true(stream, header, payload),
        header.seq < u64::MAX,
        header.seq == due_at(state, header) || (header.seq == due_at(state, header) + 1
            && header.flagged(flags::HAS_FEC)),
    ensures
        ({
            let after = state.pushed(header, payload);
            &&& after.staged == Map::<u64, Seq<u8>>::empty()
            &&& after.next_seq == Some((header.seq + 1) as u64)
            &&& after.pending == state.pending + played(
                stream,
                due_at(state, header) as int,
                header.seq + 1,
            )
            &&& after.stats.concealed == state.stats.concealed
            &&& after.valid()
        }),
{
    let (block, copy) = halves(header, payload)->0;
    let due = state.met(header).stamped(header, block.len() / 8);
    lemma_taken_in(state, header, payload);
    lemma_plays_at_once(due, header.seq, block, copy, block.len() / 4);
    law_audio_is_exact_unless_concealed(state, stream, header, payload);
}

/// What taking in a packet in time comes down to: its block is held, and then played
/// as far as that goes.
proof fn lemma_taken_in(state: JitterView, header: Header, payload: Seq<u8>)
    requires
        state.valid(),
        halves(header, payload) is Some,
        header.seq < u64::MAX,
        header.seq >= due_at(state, header),
    ensures
        ({
            let (block, copy) = halves(header, payload)->0;
            let due = state.met(header).stamped(header, block.len() / 8);
            let after = state.pushed(header, payload);
            &&& due.next_seq == Some(due_at(state, header))
            &&& due.staged == state.staged
            &&& due.stats == state.stats
            &&& copy is Some <==> header.flagged(flags::HAS_FEC)
            &&& after == due.staging(header.seq, block, copy).drained(block.len() / 4)
            &&& after.sound()
        }),
{
    let (block, copy) = halves(header, payload)->0;
    let due = state.met(header).stamped(header, block.len() / 8);
    assert(due.sound());
    lemma_staging_is_sound(due, header.seq, block, copy);
    lemma_drained_is_sound(due.staging(header.seq, block, copy), block.len() / 4);
}

/// A block whose turn it is, and one that is one early with the copy before it,
/// leave nothing held.
proof fn lemma_plays_at_once(
    due: JitterView,
    seq: u64,
    block: Seq<u8>,
    copy: Option<Seq<u8>>,
    count: nat,
)
    requires
        due.next_seq is Some,
        due.staged == Map::<u64, Seq<u8>>::empty(),
        seq < u64::MAX,
        seq == due.next_seq->0 || (seq == due.next_seq->0 + 1 && copy is Some),
    ensures
        ({
            let after = due.staging(seq, block, copy).drained(count);
            &&& after.staged == Map::<u64, Seq<u8>>::empty()
            &&& after.next_seq == Some((seq + 1) as u64)
            &&& after.stats.concealed == due.stats.concealed
        }),
{
    let staging = due.staging(seq, block, copy);
    if seq == due.next_seq->0 {
        lemma_one_block_plays(staging, block, count);
    } else {
        lemma_two_blocks_play(staging, copy->0, block, count);
    }
}

/// Whether packet `i` is the one after packet `i - 1`, or the second after it and
/// brings a copy of the one between.
pub open spec fn follows(packets: Seq<(Header, Seq<u8>)>, i: int) -> bool {
    let gap = packets[i].0.seq - packets[i - 1].0.seq;
    gap == 1 || (gap == 2 && packets[i].0.flagged(flags::HAS_FEC))
}

/// Whether packets follow each other with at most single ones missing, each of
/// which the next packet brings a copy of.
pub open spec fn isolated_losses(packets: Seq<(Header, Seq<u8>)>) -> bool {
    forall|i: int| 0 < i < packets.len() ==> #[trigger] follows(packets, i)
}

/// Packets that come in order play exactly, and single losses among them are
/// repaired exactly from the copy in the next packet.
pub proof fn law_isolated_losses_are_repaired(
    state: JitterView,
    stream: spec_fn(u64) -> Seq<u8>,
    packets: Seq<(Header, Seq<u8>)>,
)
    requires
        state.valid(),
        state.staged == Map::<u64, Seq<u8>>::empty(),
        packets.len() > 0,
        due_at(state, packets[0].0) == packets[0].0.seq,
        forall|i: int|
            0 <= i < packets.len() ==> is_true(stream, (#[trigger] packets[i]).0, packets[i].1)
                && packets[i].0.seq < u64::MAX,
        isolated_losses(packets),
    ensures
        ({
            let after = after_packets(state, packets);
            &&& after.pending == state.pending + played(
                stream,
                packets[0].0.seq as int,
                packets.last().0.seq + 1,
            )
            &&& after.stats.concealed == state.stats.concealed
            &&& after.staged == Map::<u64, Seq<u8>>::empty()
            &&& after.next_seq == Some((packets.last().0.seq + 1) as u64)
            &&& after.valid()
        }),
    decreases packets.len(),
{
    let rest = packets.drop_last();
    let (header, payload) = packets.last();
    let first = packets[0].0.seq as int;
    assert(is_true(stream, packets[packets.len() - 1].0, packets[packets.len() - 1].1));
    if rest.len() == 0 {
        assert(after_packets(state, rest) == state);
        lemma_timely_packet(state, stream, header, payload);
    } else {
        assert forall|i: int| 0 < i < rest.len() implies #[trigger] follows(rest, i) by {
            assert(follows(packets, i));
        }
        assert forall|i: int| 0 <= i < rest.len() implies is_true(
            stream,
            (#[trigger] rest[i]).0,
            rest[i].1,
        ) && rest[i].0.seq < u64::MAX by {
            assert(rest[i] == packets[i]);
        }
        law_isolated_losses_are_repaired(state, stream, rest);
        let before = after_packets(state, rest);
        assert(follows(packets, packets.len() - 1));
        assert(rest.last() == packets[packets.len() - 2]);
        lemma_timely_packet(before, stream, header, payload);
        lemma_seqs_rise(packets, packets.len() - 2);
        lemma_played_split(stream, first, rest.last().0.seq + 1, header.seq + 1);
        assert(after_packets(state, packets).pending =~= state.pending + played(
            stream,
            first,
            header.seq + 1,
        ));
    }
}

proof fn lemma_seqs_rise(packets: Seq<(Header, Seq<u8>)>, n: int)
    requires
        isolated_losses(packets),
        0 <= n < packets.len(),
    ensures
        packets[0].0.seq <= packets[n].0.seq,
    decreases n,
{
    if n > 0 {
        lemma_seqs_rise(packets, n - 1);
        assert(follows(packets, n));
    }
}

/// The audio of the first `n` packets is the first samples themselves.
proof fn lemma_played_samples(
    source: packetize::PacketizerView,
    more: Seq<u32>,
    stream: spec_fn(u64) -> Seq<u8>,
    n: int,
)
    requires
        source.pending.len() == 0,
        0 <= n <= source.packets(more),
        n <= u64::MAX,
        forall|k: u64| #[trigger] stream(k) == source.block(more, k as int),
    ensures
        played(stream, 0, n) == more.take(n * packetize::SAMPLES_PER_PACKET).map_values(
            |bits: u32| exact(bits),
        ),
        n * packetize::SAMPLES_PER_PACKET <= more.len(),
    decreases n,
{
    assert(packetize::SAMPLES_PER_PACKET == 128) by (nonlinear_arith);
    assert(source.at_hand(more) =~= more);
    let f = |bits: u32| exact(bits);
    if n > 0 {
        lemma_played_samples(source, more, stream, n - 1);
        let part = more.subrange((n - 1) * 128, (n - 1) * 128 + 128);
        assert(stream((n - 1) as u64) == samples::sample_bytes(part));
        samples::law_samples_roundtrip(part);
        assert(exact_samples(stream((n - 1) as u64)) =~= part.map_values(f));
        assert(played(stream, 0, n) =~= more.take(n * 128).map_values(f));
    } else {
        assert(played(stream, 0, n) =~= more.take(0).map_values(f));
    }
}

proof fn lemma_packets_are_true(
    source: packetize::PacketizerView,
    more: Seq<u32>,
    capture_pts_micros: u64,
    stream: spec_fn(u64) -> Seq<u8>,
    i: int,
)
    requires
        source.valid(),
        source.seq == 0,
        source.previous is None,
        0 <= i < source.packets(more),
        source.packets(more) < u64::MAX,
        forall|k: u64| #[trigger] stream(k) == source.block(more, k as int),
    ensures
        ({
            let (header, payload) = source.emitted(more, capture_pts_micros)[i];
            &&& is_true(stream, header, payload)
            &&& header.seq == i
            &&& header.flagged(flags::HAS_FEC) <==> source.fec && i > 0
        }),
{
    packetize::law_packets_fit_a_datagram(source, more, capture_pts_micros, i);
    assert(crate::packet::AUDIO_BLOCK_BYTES == 512) by (nonlinear_arith);
    assert(packetize::SAMPLES_PER_PACKET == 128) by (nonlinear_arith);
    let (header, payload) = source.emitted(more, capture_pts_micros)[i];
    let all = source.at_hand(more);
    let block = source.block(more, i);
    packetize::lemma_block_bounds(all.len(), i);
    samples::lemma_sample_bytes(all.subrange(i * 128, i * 128 + 128));
    assert(block.len() == 512);
    assert(stream(header.seq) == block);
    if header.flagged(flags::HAS_FEC) {
        assert(payload.take(512) =~= block);
        assert(payload.skip(512) =~= source.block(more, i - 1));
        assert(stream((header.seq - 1) as u64) == source.block(more, i - 1));
    }
}

/// Whether arrival `i` is the packet after the one before it, or the second after
/// where packets carry copies.
pub open spec fn steps_on(arrivals: Seq<int>, fec: bool, i: int) -> bool {
    let gap = arrivals[i] - arrivals[i - 1];
    gap == 1 || (gap == 2 && fec)
}

/// Audio survives the whole path bit for bit: what is captured is what is played,
/// when every packet arrives in order, and with redundancy also when single
/// packets are lost between others.
pub proof fn law_audio_round_trips(
    fec: bool,
    rate: SampleRate,
    captured: Seq<u32>,
    capture_pts_micros: u64,
    arrivals: Seq<int>,
    target_ms: u32,
)
    requires
        arrivals.len() > 0,
        packetize::PacketizerView::initial(fec, rate).packets(captured) < u64::MAX,
        arrivals[0] == 0,
        arrivals.last() == packetize::PacketizerView::initial(fec, rate).packets(captured) - 1,
        forall|i: int| 0 < i < arrivals.len() ==> #[trigger] steps_on(arrivals, fec, i),
    ensures
        ({
            let source = packetize::PacketizerView::initial(fec, rate);
            let sent = source.emitted(captured, capture_pts_micros);
            let after = after_packets(
                JitterView::initial(target_ms),
                arrivals.map_values(|k: int| sent[k]),
            );
            let whole = source.packets(captured) * packetize::SAMPLES_PER_PACKET;
            &&& after.pending == captured.take(whole).map_values(|bits: u32| exact(bits))
            &&& after.stats.concealed == 0
            &&& after.started || after.target_samples <= whole ==> after.pulled(whole as nat).1
                == captured.take(whole).map_values(|bits: u32| exact(bits))
        }),
{
    let source = packetize::PacketizerView::initial(fec, rate);
    let sent = source.emitted(captured, capture_pts_micros);
    let packets = arrivals.map_values(|k: int| sent[k]);
    let stream = |k: u64| source.block(captured, k as int);
    let n = source.packets(captured) as int;
    let state = JitterView::initial(target_ms);
    assert(packetize::SAMPLES_PER_PACKET == 128) by (nonlinear_arith);
    assert(state.valid());
    assert forall|i: int| 0 <= i < arrivals.len() implies 0 <= #[trigger] arrivals[i] < n by {
        lemma_arrivals_rise(arrivals, fec, 0, i);
        lemma_arrivals_rise(arrivals, fec, i, arrivals.len() - 1);
    }
    assert forall|i: int| 0 <= i < packets.len() implies is_true(
        stream,
        (#[trigger] packets[i]).0,
        packets[i].1,
    ) && packets[i].0.seq < u64::MAX && packets[i].0.seq == arrivals[i] && (
    packets[i].0.flagged(flags::HAS_FEC) <==> fec && arrivals[i] > 0) by {
        assert(0 <= arrivals[i] < n);
        lemma_packets_are_true(source, captured, capture_pts_micros, stream, arrivals[i]);
    }
    assert forall|i: int| 0 < i < packets.len() implies #[trigger] follows(packets, i) by {
        assert(steps_on(arrivals, fec, i));
        assert(packets[i].0.seq == arrivals[i]);
        assert(packets[i - 1].0.seq == arrivals[i - 1]);
        assert(0 <= arrivals[i - 1]);
    }
    assert(packets[0].0.seq == arrivals[0]);
    assert(packets[packets.len() - 1].0.seq == arrivals[packets.len() - 1]);
    law_isolated_losses_are_repaired(state, stream, packets);
    lemma_played_samples(source, captured, stream, n);
    let after = after_packets(state, packets);
    let whole = n * 128;
    assert(after.pending =~= captured.take(whole).map_values(|bits: u32| exact(bits)));
    if after.started || after.target_samples <= whole {
        assert(after.pulled(whole as nat).1 =~= after.pending);
    }
}

proof fn lemma_arrivals_rise(arrivals: Seq<int>, fec: bool, i: int, j: int)
    requires
        0 <= i <= j < arrivals.len(),
        forall|k: int| 0 < k < arrivals.len() ==> #[trigger] steps_on(arrivals, fec, k),
    ensures
        arrivals[i] <= arrivals[j],
    decreases j - i,
{
    if i < j {
        lemma_arrivals_rise(arrivals, fec, i, j - 1);
        assert(steps_on(arrivals, fec, j));
    }
}

} // verus!
