//! The self-test's two round trips, step by step: what goes onto the wire, and
//! what comes of what arrives. The wire itself, and the codec, are the caller's.

use vstd::prelude::*;

use crate::jitter;
use crate::jitter::{AudioJitter, Sample};
use crate::loopback;
use crate::loopback::Loopback;
use crate::media::EncodedFrame;
use crate::packet;
use crate::packet::{Header, SampleRate, AUDIO_CHANNELS, HEADER_LEN};
use crate::packetize;
use crate::packetize::AudioPacketizer;
use crate::receive;
use crate::reassembly;
use crate::selftest::{Collected, Recovery};
use crate::selftest;
use crate::send;
use crate::send::pack_audio;
use crate::video;
use crate::video::{Depacketizer, Frame, Framer};

verus! {

/// What an encoded frame is to the framer.
pub open spec fn source_of(frame: EncodedFrame) -> video::SourceView {
    video::SourceView {
        data: frame.data@,
        params: packet::contents(frame.params@),
        keyframe: frame.keyframe,
        pts_micros: frame.pts_micros,
    }
}

/// The state of the video round trip.
#[verifier::ext_equal]
pub struct VideoTripView {
    /// The number of the next frame.
    pub next_seq: u64,
    /// Parity blocks per group.
    pub levels: nat,
    pub link: loopback::LoopbackView,
    pub video: video::DepacketizerView,
    pub recovery: Recovery,
    pub collected: selftest::CollectedView,
    /// Keyframes sent.
    pub keyframes: int,
}

impl VideoTripView {
    /// The state before the first frame.
    pub open spec fn initial(options: selftest::Options) -> VideoTripView {
        VideoTripView {
            next_seq: 0,
            levels: if options.parity <= crate::fec::MAX_PARITY {
                options.parity as nat
            } else {
                crate::fec::MAX_PARITY as nat
            },
            link: loopback::LoopbackView::initial(options.loss_percent, options.reorder),
            video: video::DepacketizerView::initial(),
            recovery: Recovery {
                wanted: false,
                frames_since_request: u32::MAX,
                interval: (selftest::rate_of(options.fps) / 4) as u32,
                requests: 0,
            },
            collected: selftest::CollectedView {
                params: None,
                frames: seq![],
                wants_keyframe: false,
            },
            keyframes: 0,
        }
    }

    /// What recovery goes by: whether a keyframe is wanted.
    pub open spec fn pending(self) -> Recovery {
        Recovery { wanted: self.collected.wants_keyframe, ..self.recovery }
    }

    /// The state once it is decided how frame `index` is encoded. A request that
    /// is honoured is no longer wanted.
    pub open spec fn after_decision(self, index: u32) -> VideoTripView {
        let recovery = self.pending().after(index);
        VideoTripView {
            recovery,
            collected: selftest::CollectedView {
                wants_keyframe: recovery.wanted,
                ..self.collected
            },
            ..self
        }
    }

    /// The state once a frame is framed.
    pub open spec fn after_frame(self, frame: EncodedFrame) -> VideoTripView {
        VideoTripView {
            next_seq: (self.next_seq + 1) as u64,
            keyframes: if frame.keyframe {
                self.keyframes + 1
            } else {
                self.keyframes
            },
            ..self
        }
    }

    /// The state after a datagram came off the wire.
    pub open spec fn after_arrival(self, datagram: Seq<u8>) -> VideoTripView {
        match Header::opening(datagram) {
            Some(header) => VideoTripView {
                video: self.video.pushed(header, datagram.skip(HEADER_LEN as int)),
                ..self
            },
            None => self,
        }
    }

    /// Whether a datagram from the wire can be counted and numbered.
    pub open spec fn can_arrive(self, datagram: Seq<u8>) -> bool {
        Header::opening(datagram) matches Some(header)
            ==> self.video.reassembler.has_headroom() && header.seq + reassembly::STALE_DISTANCE
            <= u64::MAX
    }

    /// The state once everything that is in order by now is taken in.
    pub open spec fn drained(self) -> VideoTripView {
        let (video, released) = receive::all_polled(self.video);
        VideoTripView { video, collected: self.collected.with_all(released), ..self }
    }
}

/// What the video round trip counted.
pub struct VideoCounts {
    /// Frames sent.
    pub frames: u64,
    /// Keyframes among them.
    pub keyframes: u64,
    /// Recovery requests honoured.
    pub requests: u64,
    /// Datagrams that the link lost.
    pub dropped: u64,
    /// Datagrams that the link held back.
    pub reordered: u64,
    /// Frames that nothing could decode.
    pub discarded: u64,
    /// Times a missing frame broke the stream.
    pub resyncs: u64,
    /// Fragments rebuilt from parity.
    pub repaired: u64,
}

/// The video round trip.
pub struct VideoTrip {
    framer: Framer,
    link: Loopback,
    video: Depacketizer,
    recovery: Recovery,
    collected: Collected,
    keyframes: u64,
}

impl VideoTrip {
    pub closed spec fn model(self) -> VideoTripView {
        VideoTripView {
            next_seq: self.framer.next_seq(),
            levels: self.framer.levels(),
            link: self.link.model(),
            video: self.video.model(),
            recovery: self.recovery,
            collected: self.collected.model(),
            keyframes: self.keyframes as int,
        }
    }

    /// No more frames were keyframes than there were frames.
    pub closed spec fn valid(self) -> bool {
        &&& self.framer.valid()
        &&& self.video.valid()
        &&& self.keyframes <= self.framer.next_seq()
    }

    pub fn new(options: &selftest::Options) -> (trip: Self)
        ensures
            trip.valid(),
            trip.model() == VideoTripView::initial(*options),
    {
        let mut framer = Framer::new();
        framer.set_parity(options.parity);
        VideoTrip {
            framer,
            link: Loopback::new(options.loss_percent, options.reorder),
            video: Depacketizer::new(),
            recovery: Recovery::new(options.fps),
            collected: Collected::new(),
            keyframes: 0,
        }
    }

    /// What the trip counted so far.
    pub fn counts(&self) -> (counts: VideoCounts)
        requires
            self.valid(),
        ensures
            counts.frames == self.model().next_seq,
            counts.keyframes == self.model().keyframes,
            counts.requests == self.model().recovery.requests,
            counts.dropped == self.model().link.dropped,
            counts.reordered == self.model().link.reordered,
            counts.discarded == self.model().video.discarded,
            counts.resyncs == self.model().video.resyncs,
            counts.repaired == self.model().video.reassembler.repaired,
    {
        VideoCounts {
            frames: self.framer.upcoming(),
            keyframes: self.keyframes,
            requests: self.recovery.requests,
            dropped: self.link.dropped(),
            reordered: self.link.reordered(),
            discarded: self.video.discarded_count(),
            resyncs: self.video.resync_count(),
            repaired: self.video.repaired(),
        }
    }

    /// What was received.
    pub fn received(self) -> (collected: Collected)
        ensures
            collected.model() == self.model().collected,
    {
        self.collected
    }

    /// Whether the link's counters can count `n` more datagrams.
    pub fn can_transmit(&self, n: usize) -> (fits: bool)
        ensures
            fits == self.model().link.can_send_many(n as nat),
    {
        self.link.can_send_many(n)
    }

    /// Whether a datagram from the wire can be counted and numbered.
    pub fn can_arrive(&self, datagram: &[u8]) -> (fits: bool)
        requires
            self.valid(),
        ensures
            fits == self.model().can_arrive(datagram@),
    {
        match Header::parse(datagram) {
            Some((header, _)) => self.video.has_headroom() && header.seq <= u64::MAX
                - reassembly::STALE_DISTANCE,
            None => true,
        }
    }

    /// Whether to encode frame `index` as a keyframe, honouring a pending recovery
    /// request exactly as the live sender does.
    pub fn next_frame(&mut self, index: u32) -> (force_key: bool)
        requires
            old(self).valid(),
            old(self).model().recovery.requests < u64::MAX,
        ensures
            final(self).valid(),
            force_key == (index == 0 || old(self).model().pending().honours()),
            final(self).model() == old(self).model().after_decision(index),
    {
        self.recovery.wanted = self.collected.wants_keyframe;
        let force_key: bool = self.recovery.next_frame(index);
        self.collected.wants_keyframe = self.recovery.wanted;
        force_key
    }

    /// The datagrams of an encoded frame.
    pub fn frame(&mut self, frame: &EncodedFrame) -> (datagrams: Vec<Vec<u8>>)
        requires
            old(self).valid(),
            old(self).model().next_seq < u64::MAX,
        ensures
            final(self).valid(),
            final(self).model() == old(self).model().after_frame(*frame),
            packet::contents(datagrams@) == source_of(*frame).datagrams(
                old(self).model().next_seq,
                old(self).model().levels,
            ),
    {
        let mut datagrams: Vec<Vec<u8>> = Vec::new();
        let source = Frame {
            data: frame.data.as_slice(),
            params: frame.params.as_slice(),
            keyframe: frame.keyframe,
            pts_micros: frame.pts_micros,
        };
        assert(source.model() =~= source_of(*frame));
        self.framer.send(source, &mut datagrams);
        if frame.keyframe {
            self.keyframes = self.keyframes + 1;
        }
        assert(packet::contents(datagrams@) =~= source_of(*frame).datagrams(
            old(self).model().next_seq,
            old(self).model().levels,
        ));
        datagrams
    }

    /// Sends datagrams over the faulty link. What comes out goes onto the wire.
    pub fn transmit(&mut self, datagrams: &[Vec<u8>]) -> (wire: Vec<Vec<u8>>)
        requires
            old(self).valid(),
            old(self).model().link.can_send_many(datagrams@.len()),
        ensures
            final(self).valid(),
            final(self).model() == (VideoTripView {
                link: old(self).model().link.carried(packet::contents(datagrams@)).0,
                ..old(self).model()
            }),
            packet::contents(wire@) == old(self).model().link.carried(
                packet::contents(datagrams@),
            ).1,
    {
        let mut wire: Vec<Vec<u8>> = Vec::new();
        self.link.send_all(datagrams, &mut wire);
        assert(packet::contents(wire@) =~= old(self).model().link.carried(
            packet::contents(datagrams@),
        ).1);
        wire
    }

    /// Takes in a datagram from the wire. Anything that is not one of this link's
    /// is ignored.
    pub fn arrived(&mut self, datagram: &[u8])
        requires
            old(self).valid(),
            old(self).model().can_arrive(datagram@),
        ensures
            final(self).valid(),
            final(self).model() == old(self).model().after_arrival(datagram@),
    {
        if let Some((header, body)) = Header::parse(datagram) {
            self.video.push(header, body);
        }
    }

    /// Takes in everything that is in order by now. Frames come out in order, and
    /// one arrival can release several when it fills a gap.
    pub fn drain(&mut self)
        requires
            old(self).valid(),
        ensures
            final(self).valid(),
            final(self).model() == old(self).model().drained(),
    {
        self.collected.drain(&mut self.video);
    }
}

/// How many frames of audio are fed at turn `turn`: irregular chunks, the way a
/// capture delivers them.
pub open spec fn chunk_frames(turn: u64) -> nat {
    if turn % 4 == 0 {
        1024
    } else if turn % 4 == 1 {
        512
    } else if turn % 4 == 2 {
        2048
    } else {
        700
    }
}

/// Where the chunk that starts at `offset` ends.
pub open spec fn chunk_end(turn: u64, offset: nat, len: nat) -> nat {
    let end = offset + chunk_frames(turn) * AUDIO_CHANNELS as nat;
    if end <= len {
        end
    } else {
        len
    }
}

/// The state of the audio round trip.
#[verifier::ext_equal]
pub struct AudioTripView {
    pub packetizer: packetize::PacketizerView,
    pub link: loopback::LoopbackView,
    pub jitter: jitter::JitterView,
    /// How many samples were fed.
    pub offset: nat,
    /// How many chunks were fed.
    pub turn: u64,
}

impl AudioTripView {
    /// The state before anything is fed.
    pub open spec fn initial(options: selftest::Options, rate: SampleRate) -> AudioTripView {
        AudioTripView {
            packetizer: packetize::PacketizerView {
                pending: seq![],
                seq: 0,
                previous: None,
                fec: true,
                rate,
            },
            link: loopback::LoopbackView::initial(options.loss_percent, options.reorder),
            jitter: jitter::JitterView::initial(0),
            offset: 0,
            turn: 0,
        }
    }

    /// The next chunk of the source.
    pub open spec fn chunk(self, source: Seq<u32>) -> Seq<u32> {
        source.subrange(
            self.offset as int,
            chunk_end(self.turn, self.offset, source.len()) as int,
        )
    }

    /// The state once the next chunk is fed.
    pub open spec fn after_chunk(self, source: Seq<u32>) -> AudioTripView {
        AudioTripView {
            packetizer: self.packetizer.after(self.chunk(source)),
            offset: chunk_end(self.turn, self.offset, source.len()),
            turn: (self.turn + 1) as u64,
            ..self
        }
    }

    /// The datagrams that the next chunk completes.
    pub open spec fn datagrams(self, source: Seq<u32>) -> Seq<Seq<u8>> {
        send::datagrams_of(self.packetizer.emitted(self.chunk(source), 0))
    }

    /// The state after a datagram came off the wire.
    pub open spec fn after_arrival(self, datagram: Seq<u8>) -> AudioTripView {
        match Header::opening(datagram) {
            Some(header) => AudioTripView {
                jitter: self.jitter.pushed(header, datagram.skip(HEADER_LEN as int)),
                ..self
            },
            None => self,
        }
    }

    /// Whether a datagram from the wire can be counted and numbered.
    pub open spec fn can_arrive(self, datagram: Seq<u8>) -> bool {
        Header::opening(datagram) matches Some(header) ==> self.jitter.can_push() && header.seq
            < u64::MAX
    }
}

/// The audio round trip.
pub struct AudioTrip {
    packetizer: AudioPacketizer,
    link: Loopback,
    jitter: AudioJitter,
    offset: usize,
    turn: u64,
}

impl AudioTrip {
    pub closed spec fn model(self) -> AudioTripView {
        AudioTripView {
            packetizer: self.packetizer.model(),
            link: self.link.model(),
            jitter: self.jitter.model(),
            offset: self.offset as nat,
            turn: self.turn,
        }
    }

    /// Every sample fed is in a packet or held, and every chunk fed some.
    pub closed spec fn valid(self) -> bool {
        &&& self.packetizer.valid()
        &&& self.jitter.valid()
        &&& self.packetizer.model().seq * 128 + self.packetizer.model().pending.len()
            == self.offset
        &&& self.turn <= self.offset
    }

    pub fn new(options: &selftest::Options, rate: SampleRate) -> (trip: Self)
        ensures
            trip.valid(),
            trip.model() == AudioTripView::initial(*options, rate),
    {
        AudioTrip {
            packetizer: AudioPacketizer::new(true, rate),
            link: Loopback::new(options.loss_percent, options.reorder),
            jitter: AudioJitter::new(0),
            offset: 0,
            turn: 0,
        }
    }

    /// What the jitter buffer counted so far.
    pub fn stats(&self) -> (stats: jitter::Stats)
        ensures
            stats == self.model().jitter.stats,
    {
        self.jitter.counted()
    }

    /// Datagrams that the link lost so far.
    pub fn dropped(&self) -> (count: u64)
        ensures
            count == self.model().link.dropped,
    {
        self.link.dropped()
    }

    /// Whether the link's counters can count `n` more datagrams.
    pub fn can_transmit(&self, n: usize) -> (fits: bool)
        ensures
            fits == self.model().link.can_send_many(n as nat),
    {
        self.link.can_send_many(n)
    }

    /// Whether a datagram from the wire can be counted and numbered.
    pub fn can_arrive(&self, datagram: &[u8]) -> (fits: bool)
        ensures
            fits == self.model().can_arrive(datagram@),
    {
        match Header::parse(datagram) {
            Some((header, _)) => self.jitter.can_push() && header.seq < u64::MAX,
            None => true,
        }
    }

    /// Whether everything that is buffered can be played.
    pub fn can_collect(&self) -> (fits: bool)
        ensures
            fits == self.model().jitter.can_pull(self.model().jitter.pending.len() / 2),
    {
        self.jitter.can_pull(self.jitter.depth() / AUDIO_CHANNELS)
    }

    /// Feeds the next chunk of the source. Nothing once all of it was fed.
    pub fn feed(&mut self, source: &[u32]) -> (datagrams: Option<Vec<Vec<u8>>>)
        requires
            old(self).valid(),
            old(self).model().offset <= source@.len() <= u32::MAX,
        ensures
            final(self).valid(),
            datagrams is Some <==> old(self).model().offset < source@.len(),
            datagrams is None ==> final(self).model() == old(self).model(),
            datagrams matches Some(list) ==> final(self).model() == old(self).model().after_chunk(
                source@,
            ) && packet::contents(list@) == old(self).model().datagrams(source@),
    {
        let total: usize = source.len();
        if self.offset >= total {
            return None;
        }
        let frames: usize = match self.turn % 4 {
            0 => 1024,
            1 => 512,
            2 => 2048,
            _ => 700,
        };
        let end: usize = if total - self.offset < frames * AUDIO_CHANNELS {
            total
        } else {
            self.offset + frames * AUDIO_CHANNELS
        };
        let ghost state = self.model();
        assert(end == chunk_end(state.turn, state.offset, source@.len()));
        let chunk = vstd::slice::slice_subrange(source, self.offset, end);
        let mut datagrams: Vec<Vec<u8>> = Vec::new();
        proof {
            let held = state.packetizer;
            let n = (held.pending.len() + chunk@.len()) / 128;
            assert(packetize::SAMPLES_PER_PACKET == 128) by (nonlinear_arith);
            assert(held.head_pts(0) == 0);
            assert(0 <= packetize::packet_micros(held.rate) <= 64_000_000);
            assert(n * packetize::packet_micros(held.rate) <= 0x1_0000_0000 * 64_000_000)
                by (nonlinear_arith)
                requires
                    0 <= n <= 0x1_0000_0000,
                    0 <= packetize::packet_micros(held.rate) <= 64_000_000,
            ;
            assert(held.can_take(chunk@.len(), 0));
        }
        pack_audio(&mut self.packetizer, chunk, 0, &mut datagrams);
        self.offset = end;
        self.turn = self.turn + 1;
        assert(packet::contents(datagrams@) =~= state.datagrams(source@));
        Some(datagrams)
    }

    /// Sends datagrams over the faulty link. What comes out goes onto the wire.
    pub fn transmit(&mut self, datagrams: &[Vec<u8>]) -> (wire: Vec<Vec<u8>>)
        requires
            old(self).valid(),
            old(self).model().link.can_send_many(datagrams@.len()),
        ensures
            final(self).valid(),
            final(self).model() == (AudioTripView {
                link: old(self).model().link.carried(packet::contents(datagrams@)).0,
                ..old(self).model()
            }),
            packet::contents(wire@) == old(self).model().link.carried(
                packet::contents(datagrams@),
            ).1,
    {
        let mut wire: Vec<Vec<u8>> = Vec::new();
        self.link.send_all(datagrams, &mut wire);
        assert(packet::contents(wire@) =~= old(self).model().link.carried(
            packet::contents(datagrams@),
        ).1);
        wire
    }

    /// Lets go of everything that the link still holds, for the end of the run.
    pub fn flush(&mut self) -> (wire: Vec<Vec<u8>>)
        requires
            old(self).valid(),
        ensures
            final(self).valid(),
            final(self).model() == (AudioTripView {
                link: loopback::LoopbackView { held: seq![], ..old(self).model().link },
                ..old(self).model()
            }),
            packet::contents(wire@) == loopback::bytes_of(old(self).model().link.held),
    {
        let mut wire: Vec<Vec<u8>> = Vec::new();
        self.link.flush(&mut wire);
        assert(packet::contents(wire@) =~= loopback::bytes_of(old(self).model().link.held));
        wire
    }

    /// Takes in a datagram from the wire. Anything that is not one of this link's
    /// is ignored.
    pub fn arrived(&mut self, datagram: &[u8])
        requires
            old(self).valid(),
            old(self).model().can_arrive(datagram@),
        ensures
            final(self).valid(),
            final(self).model() == old(self).model().after_arrival(datagram@),
    {
        if let Some((header, body)) = Header::parse(datagram) {
            self.jitter.push(header, body);
        }
    }

    /// Everything that can be played.
    pub fn collect(&mut self) -> (played: Vec<Sample>)
        requires
            old(self).valid(),
            old(self).model().jitter.can_pull(old(self).model().jitter.pending.len() / 2),
        ensures
            final(self).valid(),
            final(self).model() == (AudioTripView {
                jitter: old(self).model().jitter.pulled(
                    old(self).model().jitter.pending.len(),
                ).0,
                ..old(self).model()
            }),
            played@ == old(self).model().jitter.pulled(old(self).model().jitter.pending.len()).1,
    {
        let available: usize = self.jitter.depth();
        self.jitter.pull(available)
    }
}

/// What the video trip starts with: as much parity as was asked for, up to two
/// blocks, the faults that were asked for, and nothing sent, received or wanted.
pub proof fn law_a_video_trip_starts_with_nothing(options: selftest::Options)
    ensures
        ({
            let trip = VideoTripView::initial(options);
            &&& trip.next_seq == 0
            &&& trip.keyframes == 0
            &&& options.parity <= 2 ==> trip.levels == options.parity
            &&& options.parity > 2 ==> trip.levels == 2
            &&& trip.link.loss_percent == options.loss_percent
            &&& trip.link.reorder == options.reorder
            &&& trip.link.held.len() == 0
            &&& trip.link.dropped == 0 && trip.link.reordered == 0
            &&& trip.collected.frames.len() == 0 && trip.collected.params is None
            &&& !trip.collected.wants_keyframe
            &&& trip.recovery.requests == 0
            &&& trip.recovery.frames_since_request >= trip.recovery.interval
            &&& options.fps >= 1 ==> trip.recovery.interval == options.fps as int / 4
        }),
{
}

/// A wanted keyframe is forced with the next frame that may be one, and is wanted no
/// more from then on. Deciding changes nothing else.
pub proof fn law_a_wanted_keyframe_is_forced_once(trip: VideoTripView, index: u32)
    requires
        trip.recovery.requests < u64::MAX,
    ensures
        ({
            let after = trip.after_decision(index);
            let due = trip.collected.wants_keyframe && trip.recovery.frames_since_request
                >= trip.recovery.interval;
            &&& trip.pending().honours() <==> due
            &&& after.collected.wants_keyframe == (trip.collected.wants_keyframe && !(index > 0
                && due))
            &&& after.recovery.requests == trip.recovery.requests + if index > 0 && due {
                1int
            } else {
                0
            }
            &&& after.collected.frames == trip.collected.frames
            &&& after.collected.params == trip.collected.params
            &&& after.link == trip.link
            &&& after.video == trip.video
            &&& after.next_seq == trip.next_seq
            &&& after.keyframes == trip.keyframes
            &&& after.levels == trip.levels
        }),
{
    selftest::law_a_request_is_honoured_once_it_is_due(trip.pending(), index);
}

/// Each frame sent takes the next number, and keyframes are counted apart.
pub proof fn law_frames_sent_are_counted(trip: VideoTripView, frame: EncodedFrame)
    requires
        trip.next_seq < u64::MAX,
    ensures
        ({
            let after = trip.after_frame(frame);
            &&& after.next_seq == trip.next_seq + 1
            &&& after.keyframes == trip.keyframes + if frame.keyframe {
                1int
            } else {
                0
            }
            &&& after.link == trip.link
            &&& after.video == trip.video
            &&& after.collected == trip.collected
            &&& after.recovery == trip.recovery
            &&& after.levels == trip.levels
        }),
{
}

/// A datagram off the wire goes to the receiver, header and body, if it parses, and
/// nowhere if it does not.
pub proof fn law_what_arrives_is_taken_in(
    video_trip: VideoTripView,
    audio_trip: AudioTripView,
    datagram: Seq<u8>,
)
    ensures
        ({
            let video = video_trip.after_arrival(datagram);
            let audio = audio_trip.after_arrival(datagram);
            let body = datagram.subrange(24, datagram.len() as int);
            match Header::opening(datagram) {
                None => video == video_trip && audio == audio_trip,
                Some(header) => {
                    &&& video == (VideoTripView {
                        video: video_trip.video.pushed(header, body),
                        ..video_trip
                    })
                    &&& audio == (AudioTripView {
                        jitter: audio_trip.jitter.pushed(header, body),
                        ..audio_trip
                    })
                },
            }
        }),
{
    if datagram.len() >= 24 {
        assert(datagram.skip(24) =~= datagram.subrange(24, datagram.len() as int));
    }
}

/// Draining takes up all that is in order by then and collects it; the rest of the
/// trip stays.
pub proof fn law_draining_collects_what_is_in_order(trip: VideoTripView)
    requires
        trip.video.valid(),
    ensures
        ({
            let after = trip.drained();
            let released = receive::all_polled(trip.video).1;
            &&& after.video == video::after_polls(trip.video, released.len())
            &&& after.video.polled().1 is Pending
            &&& after.collected == trip.collected.with_all(released)
            &&& after.link == trip.link
            &&& after.recovery == trip.recovery
            &&& after.next_seq == trip.next_seq
            &&& after.keyframes == trip.keyframes
        }),
{
    receive::law_draining_polls_until_nothing_is_in_order(trip.video, 0);
}

/// The state once `n` chunks of the source are fed.
pub open spec fn after_chunks(trip: AudioTripView, source: Seq<u32>, n: nat) -> AudioTripView
    decreases n,
{
    if n == 0 {
        trip
    } else {
        after_chunks(trip, source, (n - 1) as nat).after_chunk(source)
    }
}

/// Feeding goes through the source from front to back without leaving anything out
/// or feeding it twice, however it is cut: the packetizer stands where it would if
/// all of it so far had come at once. Every chunk is new until all is fed, and the
/// chunks are 1024, 512, 2048 and 700 frames in turn, as far as the source goes.
pub proof fn law_the_source_is_fed_from_front_to_back(
    options: selftest::Options,
    rate: SampleRate,
    source: Seq<u32>,
    n: nat,
)
    requires
        source.len() <= u32::MAX,
        n <= u32::MAX,
    ensures
        ({
            let start = AudioTripView::initial(options, rate);
            let now = after_chunks(start, source, n);
            let next = now.after_chunk(source);
            let wanted = now.offset + 2 * (if n % 4 == 0 {
                1024int
            } else if n % 4 == 1 {
                512
            } else if n % 4 == 2 {
                2048
            } else {
                700
            });
            &&& now.offset <= source.len()
            &&& now.turn == n
            &&& now.packetizer == start.packetizer.after(source.subrange(0, now.offset as int))
            &&& now.chunk(source) == source.subrange(now.offset as int, next.offset as int)
            &&& next.offset == if wanted <= source.len() {
                wanted
            } else {
                source.len() as int
            }
            &&& now.link == start.link
            &&& now.jitter == start.jitter
        }),
    decreases n,
{
    let start = AudioTripView::initial(options, rate);
    if n == 0 {
        lemma_nothing_fed(start.packetizer, source);
    } else {
        law_the_source_is_fed_from_front_to_back(options, rate, source, (n - 1) as nat);
        let before = after_chunks(start, source, (n - 1) as nat);
        lemma_fed_on(start.packetizer, before, source);
    }
}

proof fn lemma_nothing_fed(packetizer: packetize::PacketizerView, source: Seq<u32>)
    requires
        packetizer.valid(),
    ensures
        packetizer.after(source.subrange(0, 0)) == packetizer,
{
    assert(packetize::SAMPLES_PER_PACKET == 128) by (nonlinear_arith);
    let none = source.subrange(0, 0);
    assert(packetizer.at_hand(none) =~= packetizer.pending);
    assert(packetizer.after(none) =~= packetizer);
}

/// One more chunk of the source.
proof fn lemma_fed_on(
    packetizer: packetize::PacketizerView,
    before: AudioTripView,
    source: Seq<u32>,
)
    requires
        packetizer.valid(),
        packetizer.seq == 0,
        packetizer.pending.len() == 0,
        source.len() <= u32::MAX,
        before.offset <= source.len(),
        before.packetizer == packetizer.after(source.subrange(0, before.offset as int)),
    ensures
        ({
            let now = before.after_chunk(source);
            &&& before.offset <= now.offset <= source.len()
            &&& now.packetizer == packetizer.after(source.subrange(0, now.offset as int))
        }),
{
    assert(packetize::SAMPLES_PER_PACKET == 128) by (nonlinear_arith);
    let now = before.after_chunk(source);
    let fed = source.subrange(0, before.offset as int);
    let chunk = before.chunk(source);
    assert(fed + chunk =~= source.subrange(0, now.offset as int));
    assert(packetizer.at_hand(fed + chunk).len() <= u32::MAX);
    packetize::law_chunking_does_not_matter(packetizer, fed, chunk, 0, 0, 0);
}

} // verus!
