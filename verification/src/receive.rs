//! What the receiving side decides: what to show, when to ask for a keyframe,
//! when to probe the link.
//!
//! Times are readings of the receiver's own clock in microseconds, so the two
//! machines never need their clocks to agree.

use vstd::prelude::*;

use crate::congestion::{Controller, Feedback};
use crate::fec;
use crate::packet;
use crate::packet::{
    control, control_datagram, control_feedback_datagram, flags, Header, Kind, FEEDBACK_LEN,
    HEADER_LEN,
};
use crate::reassembly;
use crate::video;
use crate::video::{Depacketizer, Received};

verus! {

/// How often to probe the link. Frequent enough to track a changing route,
/// rare enough to be invisible next to the media streams.
pub const PING_INTERVAL_MICROS: u64 = 500_000;

/// How long to wait before asking for a keyframe again.
pub const REQUEST_INTERVAL_MICROS: u64 = 250_000;

/// The state once nothing more is in order, and everything released on the way.
pub open spec fn all_polled(state: video::DepacketizerView) -> (
    video::DepacketizerView,
    Seq<video::ReceivedView>,
)
    decreases u64::MAX - state.next_seq->0,
{
    let (after, received) = state.polled();
    if received is Pending || state.next_seq->0 == u64::MAX {
        (state, seq![])
    } else {
        let (end, rest) = all_polled(after);
        (end, seq![received] + rest)
    }
}

/// What was received.
pub open spec fn received_contents(list: Seq<Received>) -> Seq<video::ReceivedView> {
    list.map_values(|received: Received| received.model())
}

/// The next frame the depacketizer will release, or `None` when it has nothing
/// more that is in order.
pub fn next_ready(video: &mut Depacketizer) -> (ready: Option<Received>)
    requires
        old(video).valid(),
    ensures
        final(video).valid(),
        final(video).model() == old(video).model().polled().0,
        ready is None <==> old(video).model().polled().1 is Pending,
        ready matches Some(received) ==> received.model() == old(video).model().polled().1,
{
    match video.poll() {
        Received::Pending => None,
        ready => Some(ready),
    }
}

/// Everything that the depacketizer releases now. One arrival can release
/// several frames when it fills a gap.
pub fn drain_ready(video: &mut Depacketizer) -> (ready: Vec<Received>)
    requires
        old(video).valid(),
    ensures
        final(video).valid(),
        final(video).model() == all_polled(old(video).model()).0,
        received_contents(ready@) == all_polled(old(video).model()).1,
{
    let ghost goal = all_polled(video.model());
    let mut ready: Vec<Received> = Vec::new();
    proof {
        video.lemma_valid();
        assert(received_contents(ready@) + goal.1 =~= goal.1);
    }
    loop
        invariant
            video.valid(),
            video.model().valid(),
            all_polled(video.model()).0 == goal.0,
            received_contents(ready@) + all_polled(video.model()).1 == goal.1,
        ensures
            video.valid(),
            video.model() == goal.0,
            received_contents(ready@) == goal.1,
        decreases u64::MAX - video.model().next_seq->0,
    {
        let ghost state = video.model();
        proof {
            video::lemma_polled_is_valid(state);
            if !(state.polled().1 is Pending) {
                video::lemma_released_is_in_range(state);
            }
        }
        match next_ready(video) {
            Some(received) => {
                let ghost before = ready@;
                ready.push(received);
                proof {
                    video.lemma_valid();
                    let rest = all_polled(video.model()).1;
                    assert(received_contents(ready@) =~= received_contents(before).push(
                        received.model(),
                    ));
                    assert(received_contents(before) + (seq![received.model()] + rest)
                        =~= received_contents(ready@) + rest);
                }
            },
            None => {
                proof {
                    assert(received_contents(ready@) + Seq::<video::ReceivedView>::empty()
                        =~= received_contents(ready@));
                }
                break;
            },
        }
    }
    ready
}

/// Whether it has been long enough since `last`, if there was one.
pub open spec fn is_due(last: Option<u64>, now: u64, interval: u64) -> bool {
    match last {
        Some(then) => now - then >= interval,
        None => true,
    }
}

/// Whether it has been long enough since `last`, if there was one.
pub fn due(last: Option<u64>, now: u64, interval: u64) -> (long_enough: bool)
    ensures
        long_enough == is_due(last, now, interval),
{
    match last {
        Some(then) => now >= then && now - then >= interval,
        None => true,
    }
}

/// What the receiver does about a released frame.
#[derive(Debug, PartialEq, Eq)]
pub enum Output {
    /// Show a frame.
    Show { params: Option<Vec<Vec<u8>>>, data: Vec<u8>, pts_micros: u64 },
    /// A frame could not be decoded; `request` says whether to ask the sender
    /// for a keyframe now.
    OutOfSync { request: bool },
}

/// What the receiver does about a released frame.
#[verifier::ext_equal]
pub enum OutputView {
    Show { params: Option<Seq<Seq<u8>>>, data: Seq<u8>, pts_micros: u64 },
    OutOfSync { request: bool },
}

impl Output {
    pub open spec fn model(self) -> OutputView {
        match self {
            Output::Show { params, data, pts_micros } => OutputView::Show {
                params: video::sets_of(params),
                data: data@,
                pts_micros,
            },
            Output::OutOfSync { request } => OutputView::OutOfSync { request },
        }
    }
}

pub open spec fn output_contents(list: Seq<Output>) -> Seq<OutputView> {
    list.map_values(|output: Output| output.model())
}

/// What is done about the frames released so far, and when a keyframe was last
/// asked for by then. Requests are kept apart, so a burst of undecodable frames
/// does not become a burst of keyframes.
pub open spec fn outputs(
    released: Seq<video::ReceivedView>,
    last_request: Option<u64>,
    now: u64,
) -> (Seq<OutputView>, Option<u64>)
    decreases released.len(),
{
    if released.len() == 0 {
        (seq![], last_request)
    } else {
        let (before, last) = outputs(released.drop_last(), last_request, now);
        match released.last() {
            video::ReceivedView::Pending => (before, last),
            video::ReceivedView::Frame { params, data, pts_micros, .. } => (
                before.push(OutputView::Show { params, data, pts_micros }),
                last,
            ),
            video::ReceivedView::NeedKeyframe => {
                let request = is_due(last, now, REQUEST_INTERVAL_MICROS);
                (
                    before.push(OutputView::OutOfSync { request }),
                    if request {
                        Some(now)
                    } else {
                        last
                    },
                )
            },
        }
    }
}

/// A probe of the link.
pub struct Probe {
    /// The datagram to send.
    pub ping: [u8; HEADER_LEN],
    /// What was lost since the last probe, where that can be told.
    pub loss: Option<video::Loss>,
}

/// What a datagram turned out to be.
#[derive(Debug, PartialEq, Eq)]
pub enum Arrival<'a> {
    /// Nothing of this link's.
    Unreadable,
    /// Audio, for the jitter buffer.
    Audio { header: Header, body: &'a [u8] },
    /// Video, and what to do about every frame that it released.
    Video { done: Vec<Output> },
    /// The reply to a probe.
    RoundTrip { micros: u64 },
    /// Anything else on the control channel.
    Ignored,
}

/// What a datagram turned out to be.
#[verifier::ext_equal]
pub enum ArrivalView {
    Unreadable,
    Audio { header: Header, body: Seq<u8> },
    Video { done: Seq<OutputView> },
    RoundTrip { micros: u64 },
    Ignored,
}

impl<'a> Arrival<'a> {
    pub open spec fn model(self) -> ArrivalView {
        match self {
            Arrival::Unreadable => ArrivalView::Unreadable,
            Arrival::Audio { header, body } => ArrivalView::Audio { header, body: body@ },
            Arrival::Video { done } => ArrivalView::Video { done: output_contents(done@) },
            Arrival::RoundTrip { micros } => ArrivalView::RoundTrip { micros },
            Arrival::Ignored => ArrivalView::Ignored,
        }
    }
}

/// The state of the receiver.
#[verifier::ext_equal]
pub struct ReceiverView {
    pub video: video::DepacketizerView,
    pub last_ping: Option<u64>,
    pub last_request: Option<u64>,
}

impl ReceiverView {
    /// Everything released by a datagram, and the depacketizer after it.
    pub open spec fn released(self, header: Header, body: Seq<u8>) -> (
        video::DepacketizerView,
        Seq<video::ReceivedView>,
    ) {
        all_polled(self.video.pushed(header, body))
    }

    /// The state after a video datagram, and what to do about it.
    pub open spec fn after_video(self, header: Header, body: Seq<u8>, now: u64) -> (
        ReceiverView,
        Seq<OutputView>,
    ) {
        let (video, released) = self.released(header, body);
        let (done, last_request) = outputs(released, self.last_request, now);
        (ReceiverView { video, last_request, ..self }, done)
    }

    /// Whether a datagram can be counted and numbered.
    pub open spec fn can_take(self, datagram: Seq<u8>) -> bool {
        Header::opening(datagram) matches Some(header) ==> header.kind != Kind::Video || (
        self.video.reassembler.has_headroom() && header.seq + reassembly::STALE_DISTANCE
            <= u64::MAX)
    }

    /// The state after a datagram of any kind, and what it turned out to be.
    pub open spec fn after_datagram(self, datagram: Seq<u8>, now: u64) -> (
        ReceiverView,
        ArrivalView,
    ) {
        let body = datagram.skip(HEADER_LEN as int);
        match Header::opening(datagram) {
            None => (self, ArrivalView::Unreadable),
            Some(header) => match header.kind {
                Kind::Audio => (self, ArrivalView::Audio { header, body }),
                Kind::Video => {
                    let (after, done) = self.after_video(header, body, now);
                    (after, ArrivalView::Video { done })
                },
                Kind::Control => if header.flagged(control::PONG) && header.pts_micros <= now {
                    (self, ArrivalView::RoundTrip { micros: (now - header.pts_micros) as u64 })
                } else {
                    (self, ArrivalView::Ignored)
                },
            },
        }
    }
}

/// The receiving side's state.
pub struct Receiver {
    video: Depacketizer,
    last_ping: Option<u64>,
    last_request: Option<u64>,
}

impl Receiver {
    pub closed spec fn model(self) -> ReceiverView {
        ReceiverView {
            video: self.video.model(),
            last_ping: self.last_ping,
            last_request: self.last_request,
        }
    }

    pub closed spec fn valid(self) -> bool {
        self.video.valid()
    }

    pub fn new() -> (receiver: Self)
        ensures
            receiver.valid(),
            receiver.model() == (ReceiverView {
                video: video::DepacketizerView::initial(),
                last_ping: None,
                last_request: None,
            }),
    {
        Receiver { video: Depacketizer::new(), last_ping: None, last_request: None }
    }

    /// Probes the link if it is time to: the datagram to send, and what was lost
    /// since the last probe.
    pub fn probe(&mut self, now: u64) -> (probe: Option<Probe>)
        requires
            old(self).valid(),
        ensures
            final(self).valid(),
            probe is Some <==> is_due(old(self).model().last_ping, now, PING_INTERVAL_MICROS),
            probe is None ==> final(self).model() == old(self).model(),
            probe matches Some(p) ==> {
                let video = old(self).model().video;
                &&& p.ping@ == packet::control_header(control::PING, now).bytes()
                &&& p.loss is Some <==> video.turns() >= 2
                &&& p.loss matches Some(l) ==> l.completed == video.window_completed && l.expected
                    == video.turns()
                &&& final(self).model() == (ReceiverView {
                    last_ping: Some(now),
                    video: video::DepacketizerView {
                        window_first: None,
                        window_completed: 0,
                        ..video
                    },
                    ..old(self).model()
                })
            },
    {
        if !due(self.last_ping, now, PING_INTERVAL_MICROS) {
            return None;
        }
        self.last_ping = Some(now);
        let loss = self.video.take_loss();
        Some(Probe { ping: control_datagram(control::PING, now), loss })
    }

    /// Whether the counters of reassembly can count what one more datagram may
    /// bring.
    pub fn has_headroom(&self) -> (fits: bool)
        requires
            self.valid(),
        ensures
            fits == self.model().video.reassembler.has_headroom(),
    {
        self.video.has_headroom()
    }

    /// Takes in a video datagram, and says what to do about every frame that it
    /// releases.
    pub fn on_video(&mut self, header: Header, body: &[u8], now: u64) -> (done: Vec<Output>)
        requires
            old(self).valid(),
            old(self).model().video.reassembler.has_headroom(),
            header.seq + reassembly::STALE_DISTANCE <= u64::MAX,
            header.flagged(flags::PARITY) || fec::fragment_opening(body@) is None
                || header.in_range(),
        ensures
            final(self).valid(),
            final(self).model() == old(self).model().after_video(header, body@, now).0,
            output_contents(done@) == old(self).model().after_video(header, body@, now).1,
    {
        self.video.push(header, body);
        let mut ready = drain_ready(&mut self.video);
        let ghost all = received_contents(ready@);
        let ghost start = self.last_request;
        let mut done: Vec<Output> = Vec::new();
        proof {
            assert(all.skip(0) =~= all);
            assert(output_contents(done@) =~= outputs(all.take(0), start, now).0);
        }
        while ready.len() > 0
            invariant
                ready@.len() <= all.len(),
                received_contents(ready@) == all.skip(all.len() - ready@.len()),
                output_contents(done@) == outputs(all.take(all.len() - ready@.len()), start, now).0,
                self.last_request == outputs(all.take(all.len() - ready@.len()), start, now).1,
                self.video.valid(),
                self.video.model() == old(self).model().released(header, body@).0,
                all == old(self).model().released(header, body@).1,
                self.last_ping == old(self).last_ping,
            decreases ready@.len(),
        {
            let ghost at = all.len() - ready@.len();
            let ghost so_far = done@;
            let received = ready.remove(0);
            proof {
                assert(all.skip(at)[0] == received.model());
                assert(all.take(at + 1).drop_last() =~= all.take(at));
                assert(all.take(at + 1).last() == received.model());
                assert(received_contents(ready@) =~= all.skip(at).skip(1));
                assert(all.skip(at + 1) =~= all.skip(at).skip(1));
            }
            match received {
                Received::Pending => {},
                Received::Frame { seq: _, params, data, pts_micros } => {
                    done.push(Output::Show { params, data, pts_micros });
                },
                Received::NeedKeyframe => {
                    let request: bool = due(self.last_request, now, REQUEST_INTERVAL_MICROS);
                    if request {
                        self.last_request = Some(now);
                    }
                    done.push(Output::OutOfSync { request });
                },
            }
            proof {
                if done@.len() > so_far.len() {
                    assert(output_contents(done@) =~= output_contents(so_far).push(
                        done@.last().model(),
                    ));
                }
            }
        }
        assert(all.take(all.len() as int) =~= all);
        done
    }
}

impl Receiver {
    /// Whether a datagram can be counted and numbered.
    pub fn can_take(&self, datagram: &[u8]) -> (fits: bool)
        requires
            self.valid(),
        ensures
            fits == self.model().can_take(datagram@),
    {
        match Header::parse(datagram) {
            Some((header, _)) => header.kind != Kind::Video || (self.has_headroom() && header.seq
                <= u64::MAX - reassembly::STALE_DISTANCE),
            None => true,
        }
    }

    /// Takes in a datagram of any kind.
    pub fn on_datagram<'a>(&mut self, datagram: &'a [u8], now: u64) -> (arrival: Arrival<'a>)
        requires
            old(self).valid(),
            old(self).model().can_take(datagram@),
        ensures
            final(self).valid(),
            final(self).model() == old(self).model().after_datagram(datagram@, now).0,
            arrival.model() == old(self).model().after_datagram(datagram@, now).1,
    {
        let (header, body) = match Header::parse(datagram) {
            Some(parsed) => parsed,
            None => {
                return Arrival::Unreadable;
            },
        };
        match header.kind {
            Kind::Audio => Arrival::Audio { header, body },
            Kind::Video => Arrival::Video { done: self.on_video(header, body, now) },
            Kind::Control => match round_trip(&header, now) {
                Some(micros) => Arrival::RoundTrip { micros },
                None => Arrival::Ignored,
            },
        }
    }
}

/// Acts on a report of the link, and says what to ask the sender for.
pub fn adjust(congestion: &mut Controller, feedback: Feedback) -> (datagram: [u8; FEEDBACK_LEN])
    requires
        old(congestion).valid(),
        old(congestion).clean_reports < u32::MAX,
    ensures
        final(congestion).valid(),
        *final(congestion) == old(congestion).updated(feedback),
        datagram@ == packet::control_header(control::BITRATE, 0).bytes() + packet::feedback_body(
            final(congestion).target_bps,
            if feedback.losing {
                2
            } else {
                1
            },
        ),
{
    congestion.update(feedback);
    control_feedback_datagram(
        control::BITRATE,
        congestion.target_bps(),
        congestion.parity_blocks(),
    )
}

/// How far the picture is ahead of the sound, in microseconds. Both streams are
/// stamped from the sender's clock, so this is the real offset rather than an
/// estimate.
pub fn av_skew(frame_pts: u64, audio_pts: u64) -> (micros: i64)
    requires
        i64::MIN <= frame_pts as i64 - audio_pts as i64 <= i64::MAX,
    ensures
        micros == frame_pts as i64 - audio_pts as i64,
{
    frame_pts as i64 - audio_pts as i64
}

/// The round trip that a reply to a probe shows, if it is one. Both stamps come
/// from the receiver's own clock, so there is no clock-offset error.
pub fn round_trip(header: &Header, now: u64) -> (elapsed: Option<u64>)
    ensures
        elapsed is Some <==> header.kind == Kind::Control && header.flagged(control::PONG)
            && header.pts_micros <= now,
        elapsed matches Some(micros) ==> micros == now - header.pts_micros,
{
    if header.kind == Kind::Control && header.has(control::PONG) && header.pts_micros <= now {
        Some(now - header.pts_micros)
    } else {
        None
    }
}

/// Keyframe requests are kept apart: among the frames that one datagram releases
/// at most one brings a request, and only if the last request is old enough.
pub proof fn law_keyframe_requests_are_spaced(
    released: Seq<video::ReceivedView>,
    last_request: Option<u64>,
    now: u64,
    i: int,
    j: int,
)
    requires
        0 <= i < j < outputs(released, last_request, now).0.len(),
    ensures
        ({
            let (done, last) = outputs(released, last_request, now);
            let asks = OutputView::OutOfSync { request: true };
            &&& !(done[i] == asks && done[j] == asks)
            &&& done[i] == asks || done[j] == asks ==> is_due(
                last_request,
                now,
                REQUEST_INTERVAL_MICROS,
            ) && last == Some(now)
        }),
{
    lemma_request_times(released, last_request, now);
}

proof fn lemma_request_times(
    released: Seq<video::ReceivedView>,
    last_request: Option<u64>,
    now: u64,
)
    ensures
        ({
            let (done, last) = outputs(released, last_request, now);
            let asks = OutputView::OutOfSync { request: true };
            &&& (forall|i: int| 0 <= i < done.len() ==> #[trigger] done[i] != asks) ==> last
                == last_request
            &&& forall|i: int|
                0 <= i < done.len() && #[trigger] done[i] == asks ==> last == Some(now) && is_due(
                    last_request,
                    now,
                    REQUEST_INTERVAL_MICROS,
                )
            &&& forall|i: int, j: int|
                0 <= i < j < done.len() ==> !(#[trigger] done[i] == asks && #[trigger] done[j]
                    == asks)
        }),
    decreases released.len(),
{
    if released.len() > 0 {
        lemma_request_times(released.drop_last(), last_request, now);
        let (before, last) = outputs(released.drop_last(), last_request, now);
        let done = outputs(released, last_request, now).0;
        let asks = OutputView::OutOfSync { request: true };
        assert forall|i: int| 0 <= i < before.len() implies #[trigger] done[i] == before[i] by {}
        if done.len() > before.len() && done.last() == asks {
            assert forall|i: int| 0 <= i < before.len() implies #[trigger] before[i] != asks by {}
        }
        if forall|i: int| 0 <= i < done.len() ==> #[trigger] done[i] != asks {
            assert forall|i: int| 0 <= i < before.len() implies #[trigger] before[i] != asks by {
                assert(done[i] == before[i]);
            }
        }
    }
}

/// Whether a keyframe may be asked for at `now`: it never was, or at least a quarter
/// of a second has passed since.
pub open spec fn may_ask(last_request: Option<u64>, now: u64) -> bool {
    match last_request {
        Some(then) => now >= then + 250_000,
        None => true,
    }
}

/// Every released frame has its own output, in order, whatever was asked for and
/// when: a frame that can be decoded is shown, with its own parameter sets, data
/// and timestamp, and one that cannot is reported out of sync.
pub proof fn law_every_released_frame_has_its_output(
    released: Seq<video::ReceivedView>,
    last_request: Option<u64>,
    now: u64,
    i: int,
)
    requires
        forall|j: int| 0 <= j < released.len() ==> !(#[trigger] released[j] is Pending),
        0 <= i < released.len(),
    ensures
        ({
            let done = outputs(released, last_request, now).0;
            &&& done.len() == released.len()
            &&& match released[i] {
                video::ReceivedView::Frame { seq, params, data, pts_micros } => done[i] == (
                OutputView::Show { params, data, pts_micros }),
                _ => done[i] is OutOfSync,
            }
        }),
    decreases released.len(),
{
    let rest = released.drop_last();
    assert forall|j: int| 0 <= j < rest.len() implies !(#[trigger] rest[j] is Pending) by {
        assert(rest[j] == released[j]);
    }
    if rest.len() > 0 {
        let k = if i < rest.len() {
            i
        } else {
            0
        };
        law_every_released_frame_has_its_output(rest, last_request, now, k);
    }
    assert(!(released[released.len() - 1] is Pending));
}

/// Of the frames that one datagram releases, the first that cannot be decoded asks
/// for a keyframe, if one may be asked for, and no other does. The time of asking
/// is remembered if and only if it was asked.
pub proof fn law_the_first_undecodable_frame_asks(
    released: Seq<video::ReceivedView>,
    last_request: Option<u64>,
    now: u64,
    i: int,
)
    requires
        forall|j: int| 0 <= j < released.len() ==> !(#[trigger] released[j] is Pending),
        0 <= i < released.len(),
        released[i] is NeedKeyframe,
    ensures
        ({
            let (done, last) = outputs(released, last_request, now);
            let is_first = forall|j: int|
                0 <= j < i ==> !(#[trigger] released[j] is NeedKeyframe);
            &&& done[i] == (OutputView::OutOfSync {
                request: is_first && may_ask(last_request, now),
            })
            &&& last == if may_ask(last_request, now) {
                Some(now)
            } else {
                last_request
            }
        }),
    decreases released.len(),
{
    let rest = released.drop_last();
    assert forall|j: int| 0 <= j < rest.len() implies !(#[trigger] rest[j] is Pending) by {
        assert(rest[j] == released[j]);
    }
    assert(!(released[released.len() - 1] is Pending));
    if rest.len() > 0 {
        law_every_released_frame_has_its_output(rest, last_request, now, 0);
    }
    if i < rest.len() {
        law_the_first_undecodable_frame_asks(rest, last_request, now, i);
        assert forall|j: int| 0 <= j < i implies #[trigger] rest[j] == released[j] by {}
        if !(forall|j: int| 0 <= j < i ==> !(#[trigger] released[j] is NeedKeyframe)) {
            let j = choose|j: int| 0 <= j < i && #[trigger] released[j] is NeedKeyframe;
            assert(rest[j] is NeedKeyframe);
        }
    } else {
        lemma_no_keyframe_needed(rest, last_request, now);
        if exists|j: int| 0 <= j < i && #[trigger] released[j] is NeedKeyframe {
            let j = choose|j: int| 0 <= j < i && #[trigger] released[j] is NeedKeyframe;
            assert(rest[j] is NeedKeyframe);
            law_the_first_undecodable_frame_asks(rest, last_request, now, j);
        } else {
            assert forall|j: int| 0 <= j < rest.len() implies !(
            #[trigger] rest[j] is NeedKeyframe) by {
                assert(rest[j] == released[j]);
            }
        }
    }
}

/// While every frame can be decoded, no keyframe is asked for.
proof fn lemma_no_keyframe_needed(
    released: Seq<video::ReceivedView>,
    last_request: Option<u64>,
    now: u64,
)
    ensures
        (forall|j: int| 0 <= j < released.len() ==> !(#[trigger] released[j] is NeedKeyframe))
            ==> outputs(released, last_request, now).1 == last_request,
    decreases released.len(),
{
    if released.len() > 0 {
        let rest = released.drop_last();
        lemma_no_keyframe_needed(rest, last_request, now);
        if forall|j: int| 0 <= j < released.len() ==> !(#[trigger] released[j] is NeedKeyframe) {
            assert forall|j: int| 0 <= j < rest.len() implies !(
            #[trigger] rest[j] is NeedKeyframe) by {
                assert(rest[j] == released[j]);
            }
            assert(!(released[released.len() - 1] is NeedKeyframe));
        }
    }
}

/// While everything that is released can be decoded, no keyframe is asked for, and
/// when the last was stays remembered.
pub proof fn law_a_decodable_stream_asks_for_nothing(
    released: Seq<video::ReceivedView>,
    last_request: Option<u64>,
    now: u64,
)
    requires
        forall|j: int| 0 <= j < released.len() ==> !(#[trigger] released[j] is NeedKeyframe),
    ensures
        outputs(released, last_request, now).1 == last_request,
{
    lemma_no_keyframe_needed(released, last_request, now);
}

/// Draining takes up everything that is in order: poll after poll, each with its
/// own result, until one is pending.
pub proof fn law_draining_polls_until_nothing_is_in_order(state: video::DepacketizerView, i: int)
    requires
        state.valid(),
    ensures
        ({
            let (after, released) = all_polled(state);
            &&& after == video::after_polls(state, released.len())
            &&& after.polled().1 is Pending
            &&& 0 <= i < released.len() ==> !(released[i] is Pending) && released[i]
                == video::after_polls(state, i as nat).polled().1
        }),
    decreases u64::MAX - state.next_seq->0,
{
    let (after, received) = state.polled();
    if !(received is Pending) {
        video::lemma_polled_is_valid(state);
        video::lemma_released_is_in_range(state);
        let (end, rest) = all_polled(after);
        law_draining_polls_until_nothing_is_in_order(after, i - 1);
        video::lemma_polls_shift(state, rest.len());
        if i > 0 {
            video::lemma_polls_shift(state, (i - 1) as nat);
        }
    }
}

/// What a video datagram leads to: the depacketizer takes it in and releases all
/// that is in order by then, and each released frame has its output.
pub proof fn law_a_video_datagram_releases_what_is_in_order(
    state: ReceiverView,
    header: Header,
    body: Seq<u8>,
    now: u64,
    i: int,
)
    requires
        state.video.valid(),
        state.video.reassembler.valid(),
        header.seq + reassembly::STALE_DISTANCE <= u64::MAX,
    ensures
        ({
            let (after, done) = state.after_video(header, body, now);
            let taken = state.video.pushed(header, body);
            let received = video::after_polls(taken, i as nat).polled().1;
            &&& after.video == video::after_polls(taken, done.len())
            &&& after.video.polled().1 is Pending
            &&& after.last_ping == state.last_ping
            &&& 0 <= i < done.len() ==> !(received is Pending)
            &&& 0 <= i < done.len() && received is NeedKeyframe ==> done[i] is OutOfSync
            &&& 0 <= i < done.len() && received is Frame ==> done[i] == (OutputView::Show {
                params: received->params,
                data: received->data,
                pts_micros: received->pts_micros,
            })
        }),
{
    let taken = state.video.pushed(header, body);
    video::lemma_pushed_is_valid(state.video, header, body);
    let released = all_polled(taken).1;
    law_draining_polls_until_nothing_is_in_order(taken, i);
    assert forall|j: int| 0 <= j < released.len() implies !(#[trigger] released[j] is Pending) by {
        law_draining_polls_until_nothing_is_in_order(taken, j);
    }
    if released.len() > 0 {
        let k = if 0 <= i < released.len() {
            i
        } else {
            0
        };
        law_every_released_frame_has_its_output(released, state.last_request, now, k);
    }
}

/// A datagram is taken for what its header says it is. One that does not parse, and
/// anything but video, changes nothing. Audio is passed on whole. Of what comes on
/// the control channel only a reply to a probe means anything, and it shows how
/// long ago by the receiver's own clock the probe went out.
pub proof fn law_a_datagram_is_what_its_header_says(
    state: ReceiverView,
    datagram: Seq<u8>,
    now: u64,
)
    ensures
        ({
            let (after, arrival) = state.after_datagram(datagram, now);
            match Header::opening(datagram) {
                None => arrival is Unreadable && after == state,
                Some(header) => {
                    &&& arrival !is Unreadable
                    &&& header.kind != Kind::Video ==> after == state
                    &&& arrival is Audio <==> header.kind == Kind::Audio
                    &&& arrival is Audio ==> arrival->header == header && arrival->body.len() + 24
                        == datagram.len() && datagram.subrange(24, datagram.len() as int)
                        == arrival->body
                    &&& arrival is Video <==> header.kind == Kind::Video
                    &&& arrival is RoundTrip <==> header.kind == Kind::Control && header.flags
                        & control::PONG != 0 && header.pts_micros <= now
                    &&& arrival is RoundTrip ==> header.pts_micros + arrival->micros == now
                }
            }
        }),
{
}

/// It is time again once the whole interval has passed, and not before.
pub proof fn law_an_interval_is_waited_out(last: Option<u64>, now: u64, interval: u64)
    ensures
        is_due(last, now, interval) <==> (last matches Some(then) ==> now >= then + interval),
{
}

/// The link is probed no more than twice a second, and a keyframe asked for no
/// more than four times a second.
pub proof fn law_probes_and_requests_are_rationed(last: u64, now: u64)
    ensures
        is_due(Some(last), now, PING_INTERVAL_MICROS) <==> now - last >= 500_000,
        is_due(Some(last), now, REQUEST_INTERVAL_MICROS) <==> now - last >= 250_000,
{
}

} // verus!
