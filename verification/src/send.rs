//! What the sending side decides: where it may send, what it answers the
//! receiver, and which of the receiver's requests it adopts.

use vstd::prelude::*;

use crate::chunks;
use crate::packet;
use crate::packet::{
    control, control_datagram, control_feedback, fragment, Header, Kind, SampleRate, HEADER_LEN,
};
use crate::packetize;
use crate::packetize::AudioPacketizer;
use crate::tailnet::{is_protected, Address};
use crate::video::Framer;

verus! {

pub struct Options {
    pub peer: String,
    pub port: u16,
    pub bitrate_bps: i32,
    pub fps: i32,
    pub max_width: i32,
    pub fec: bool,
    pub show_cursor: bool,
    pub sample_rate: SampleRate,
    /// Floor the receiver may not push the bitrate below.
    pub min_bitrate_bps: i32,
    pub congestion_control: bool,
    /// Send to an address outside the tunnel anyway.
    pub allow_untunnelled: bool,
}

/// What is to be done about a destination.
#[derive(Debug, Clone, Copy, PartialEq, Eq, Structural)]
pub enum Route {
    /// It is inside the tunnel, or never leaves the machine.
    Protected,
    /// It is outside the tunnel and must not be sent to.
    Refused,
    /// It is outside the tunnel and sent to by explicit wish.
    InTheClear,
}

/// The security of the link is entirely the tunnel's, so a destination outside
/// it is refused unless that is explicitly allowed: the cost of getting this
/// wrong is the screen and audio going out in the clear.
pub fn route(peer: Address, allow_untunnelled: bool) -> (route: Route)
    ensures
        route == Route::Protected <==> peer.in_loopback() || peer.in_tailnet(),
        route == Route::Refused <==> !(peer.in_loopback() || peer.in_tailnet())
            && !allow_untunnelled,
{
    if is_protected(peer) {
        Route::Protected
    } else if allow_untunnelled {
        Route::InTheClear
    } else {
        Route::Refused
    }
}

/// What the encoder was configured with.
#[derive(Debug, Clone, Copy, PartialEq, Eq, Structural)]
pub struct EncoderSettings {
    pub bitrate_bps: i32,
    pub min_bitrate_bps: i32,
    pub congestion_control: bool,
}

impl EncoderSettings {
    /// The requested bitrate, within what this sender was configured to allow.
    pub open spec fn allowed(self, requested: u64) -> i32 {
        if requested < self.min_bitrate_bps {
            self.min_bitrate_bps
        } else if requested > self.bitrate_bps {
            self.bitrate_bps
        } else {
            requested as i32
        }
    }

    /// By how much a bitrate differs from the current one, in either direction.
    pub open spec fn change(self, requested: u64, current: i32) -> int {
        let difference = self.allowed(requested) - current;
        if difference < 0 {
            -difference
        } else {
            difference
        }
    }

    /// Whether a request can be weighed: there is a range to keep it in.
    pub open spec fn can_apply_request(self, requested: u64) -> bool {
        requested != 0 && self.congestion_control ==> self.min_bitrate_bps <= self.bitrate_bps
    }

    /// The requested bitrate, within what this sender was configured to allow.
    fn within_limits(&self, requested: u64) -> (bps: i32)
        ensures
            bps == self.allowed(requested),
    {
        let wish: i128 = requested as i128;
        if wish < self.min_bitrate_bps as i128 {
            self.min_bitrate_bps
        } else if wish > self.bitrate_bps as i128 {
            self.bitrate_bps
        } else {
            requested as i32
        }
    }

    /// Whether a request can be weighed: there is a range to keep it in.
    pub fn can_apply(&self, requested: u64) -> (fits: bool)
        ensures
            fits == self.can_apply_request(requested),
    {
        requested == 0 || !self.congestion_control || self.min_bitrate_bps <= self.bitrate_bps
    }

    /// Adopts a bitrate the receiver asked for, clamped to what this sender was
    /// configured to allow. Nothing if there was no request, if the rate is held
    /// fixed, or if the change is under a twentieth: small changes are ignored so
    /// the encoder is not reconfigured constantly.
    pub fn apply_bitrate_request(&self, requested: u64, current: i32) -> (target: Option<i32>)
        requires
            self.can_apply_request(requested),
        ensures
            target is Some <==> requested != 0 && self.congestion_control && self.change(
                requested,
                current,
            ) * 20 >= current,
            target matches Some(bps) ==> bps == self.allowed(requested) && self.min_bitrate_bps
                <= bps <= self.bitrate_bps,
    {
        if requested == 0 || !self.congestion_control {
            return None;
        }
        let target: i32 = self.within_limits(requested);
        let difference: i64 = target as i64 - current as i64;
        let change: i64 = if difference < 0 {
            -difference
        } else {
            difference
        };
        if change * 20 < current as i64 {
            return None;
        }
        Some(target)
    }
}

/// Adopts whatever repair strength the receiver has asked for, if it asked; it is
/// the side that can see how much is actually going missing.
pub fn apply_parity_request(framer: &mut Framer, requested: usize, congestion_control: bool)
    requires
        old(framer).valid(),
    ensures
        final(framer).valid(),
        final(framer).next_seq() == old(framer).next_seq(),
        final(framer).has_fec() == old(framer).has_fec(),
        final(framer).parity() == if requested > 0 && congestion_control {
            if requested <= crate::fec::MAX_PARITY {
                requested as nat
            } else {
                crate::fec::MAX_PARITY as nat
            }
        } else {
            old(framer).parity()
        },
{
    if requested > 0 && congestion_control {
        framer.set_parity(requested);
    }
}

/// What the sender does about a datagram of the receiver's.
#[derive(Debug, Clone, Copy, PartialEq, Eq)]
pub struct Served {
    /// Encode a keyframe next.
    pub keyframe: bool,
    /// The video bitrate and the parity blocks asked for.
    pub feedback: Option<(u32, u32)>,
    /// The reply to a probe.
    pub pong: Option<[u8; HEADER_LEN]>,
}

/// Serves the receiver's control channel: keyframe requests, feedback and latency
/// probes. A probe is echoed with its stamp untouched, which is the receiver's own
/// clock. Anything but a control datagram is ignored.
pub fn serve(datagram: &[u8]) -> (served: Option<Served>)
    ensures
        served is Some <==> (Header::opening(datagram@) matches Some(header) && header.kind
            == Kind::Control),
        served matches Some(s) ==> {
            let header = Header::opening(datagram@)->0;
            let body = datagram@.skip(HEADER_LEN as int);
            &&& s.keyframe == header.flagged(control::KEYFRAME_REQUEST)
            &&& s.feedback is Some <==> header.flagged(control::BITRATE) && body.len() >= 8
            &&& s.feedback matches Some((bitrate, parity)) ==> bitrate == crate::endian::le_value(
                body.subrange(0, 4),
            ) && parity == crate::endian::le_value(body.subrange(4, 8))
            &&& s.pong is Some <==> header.flagged(control::PING)
            &&& s.pong matches Some(reply) ==> reply@ == packet::control_header(
                control::PONG,
                header.pts_micros,
            ).bytes()
        },
{
    let (header, body) = match Header::parse(datagram) {
        Some(parsed) => parsed,
        None => {
            return None;
        },
    };
    if header.kind != Kind::Control {
        return None;
    }
    let feedback = if header.has(control::BITRATE) {
        control_feedback(body)
    } else {
        None
    };
    let pong = if header.has(control::PING) {
        Some(control_datagram(control::PONG, header.pts_micros))
    } else {
        None
    };
    Some(Served { keyframe: header.has(control::KEYFRAME_REQUEST), feedback, pong })
}

/// A probe's stamp comes back: the reply to a probe of time `stamp` is a control
/// datagram that carries `stamp`.
pub proof fn law_probes_are_echoed(stamp_micros: u64)
    ensures
        ({
            let probe = packet::control_header(control::PING, stamp_micros);
            let reply = packet::control_header(control::PONG, stamp_micros);
            &&& Header::opening(probe.bytes()) == Some(probe)
            &&& probe.flagged(control::PING)
            &&& Header::opening(reply.bytes()) == Some(reply)
            &&& reply.flagged(control::PONG)
            &&& reply.pts_micros == probe.pts_micros
        }),
{
    packet::law_control_datagrams_roundtrip(control::PING, stamp_micros);
    packet::law_control_datagrams_roundtrip(control::PONG, stamp_micros);
    assert(0x10u8 & 0x10u8 != 0 && 0x20u8 & 0x20u8 != 0) by (bit_vector);
}

/// The datagrams that carry audio packets, in order.
pub open spec fn datagrams_of(packets: Seq<(Header, Seq<u8>)>) -> Seq<Seq<u8>>
    decreases packets.len(),
{
    if packets.len() == 0 {
        seq![]
    } else {
        datagrams_of(packets.drop_last()) + packet::fragments(packets.last().0, packets.last().1)
    }
}

/// Packs captured audio and appends the datagrams to `out`. Returns how many
/// packets they carry.
pub fn pack_audio(
    packetizer: &mut AudioPacketizer,
    samples: &[u32],
    capture_pts_micros: u64,
    out: &mut Vec<Vec<u8>>,
) -> (count: usize)
    requires
        old(packetizer).valid(),
        old(packetizer).model().can_take(samples@.len(), capture_pts_micros),
    ensures
        final(packetizer).valid(),
        final(packetizer).model() == old(packetizer).model().after(samples@),
        count == old(packetizer).model().packets(samples@),
        packet::contents(final(out)@) == packet::contents(old(out)@) + datagrams_of(
            old(packetizer).model().emitted(samples@, capture_pts_micros),
        ),
{
    let mut packets: Vec<(Header, Vec<u8>)> = Vec::new();
    let ghost all = packetizer.model().emitted(samples@, capture_pts_micros);
    packetizer.push(samples, capture_pts_micros, &mut packets);
    assert(packetize::packets_in(packets@) =~= all);
    let mut i: usize = 0;
    assert(packet::contents(out@) =~= packet::contents(old(out)@) + datagrams_of(all.take(0)));
    while i < packets.len()
        invariant
            i <= packets@.len(),
            packetize::packets_in(packets@) == all,
            packet::contents(out@) == packet::contents(old(out)@) + datagrams_of(
                all.take(i as int),
            ),
        decreases packets@.len() - i,
    {
        let ghost before = packet::contents(out@);
        proof {
            assert(all[i as int] == (packets@[i as int].0, packets@[i as int].1@));
            assert(all.take(i + 1).drop_last() =~= all.take(i as int));
            assert(all.take(i + 1).last() == all[i as int]);
        }
        fragment(packets[i].0, packets[i].1.as_slice(), out);
        assert(packet::contents(out@) =~= packet::contents(old(out)@) + datagrams_of(
            all.take(i + 1),
        ));
        i = i + 1;
    }
    assert(all.take(i as int) =~= all);
    packets.len()
}

/// Every audio packet is exactly one datagram, its header in front of its payload.
pub proof fn law_audio_packets_are_single_datagrams(
    state: packetize::PacketizerView,
    more: Seq<u32>,
    capture_pts_micros: u64,
    i: int,
)
    requires
        state.valid(),
        0 <= i < state.packets(more),
    ensures
        ({
            let (header, payload) = state.emitted(more, capture_pts_micros)[i];
            packet::fragments(header, payload) == seq![header.bytes() + payload]
        }),
{
    packetize::law_packets_fit_a_datagram(state, more, capture_pts_micros, i);
    let (header, payload) = state.emitted(more, capture_pts_micros)[i];
    let all = packet::fragments(header, payload);
    assert(crate::packet::AUDIO_BLOCK_BYTES == 512) by (nonlinear_arith);
    let len = payload.len() as int;
    assert((len + 1256 - 1) / 1256 == 1);
    assert(all.len() == 1);
    assert(chunks::block(payload, packet::MAX_PAYLOAD as nat, 0) =~= payload);
    assert(Header { fragment_index: 0, fragment_count: 1, ..header } == header);
    assert(all =~= seq![header.bytes() + payload]);
}

/// A request within what was configured is granted as it stands; one below it gets
/// the floor, and one above it the ceiling. The change weighed is the distance from
/// the current bitrate, whichever way it goes.
pub proof fn law_requests_are_kept_within_limits(
    settings: EncoderSettings,
    requested: u64,
    current: i32,
)
    requires
        settings.min_bitrate_bps <= settings.bitrate_bps,
    ensures
        ({
            let granted = settings.allowed(requested);
            let change = settings.change(requested, current);
            &&& settings.min_bitrate_bps <= requested <= settings.bitrate_bps ==> granted
                == requested
            &&& requested <= settings.min_bitrate_bps ==> granted == settings.min_bitrate_bps
            &&& requested >= settings.bitrate_bps ==> granted == settings.bitrate_bps
            &&& change >= 0
            &&& granted >= current ==> change == granted - current
            &&& granted <= current ==> change == current - granted
        }),
{
}

/// Captured audio goes out as one datagram per packet, in the order of the
/// packets, each with its header in front of its payload.
pub proof fn law_audio_goes_out_in_order(
    state: packetize::PacketizerView,
    more: Seq<u32>,
    capture_pts_micros: u64,
    i: int,
)
    requires
        state.valid(),
        0 <= i < state.packets(more),
    ensures
        ({
            let packets = state.emitted(more, capture_pts_micros);
            let datagrams = datagrams_of(packets);
            &&& datagrams.len() == packets.len()
            &&& datagrams[i] == packets[i].0.bytes() + packets[i].1
        }),
{
    let packets = state.emitted(more, capture_pts_micros);
    lemma_datagrams_of(state, more, capture_pts_micros, packets.len() as int);
    assert(packets.take(packets.len() as int) =~= packets);
}

proof fn lemma_datagrams_of(
    state: packetize::PacketizerView,
    more: Seq<u32>,
    capture_pts_micros: u64,
    n: int,
)
    requires
        state.valid(),
        0 <= n <= state.packets(more),
    ensures
        ({
            let packets = state.emitted(more, capture_pts_micros);
            let datagrams = datagrams_of(packets.take(n));
            &&& datagrams.len() == n
            &&& forall|i: int|
                0 <= i < n ==> #[trigger] datagrams[i] == packets[i].0.bytes() + packets[i].1
        }),
    decreases n,
{
    if n > 0 {
        let packets = state.emitted(more, capture_pts_micros);
        lemma_datagrams_of(state, more, capture_pts_micros, n - 1);
        law_audio_packets_are_single_datagrams(state, more, capture_pts_micros, n - 1);
        assert(packets.take(n).drop_last() =~= packets.take(n - 1));
        assert(packets.take(n).last() == packets[n - 1]);
    }
}

} // verus!
