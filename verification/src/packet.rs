//! Wire format of the link.
//!
//! The transport is plain UDP inside a Tailscale (WireGuard) tunnel, so the
//! protocol carries no encryption or authentication of its own. Tailscale's
//! default MTU is 1280, which sets the datagram budget below.

use vstd::prelude::*;

use crate::chunks;
use crate::chunks::{count_blocks, take_block};
use crate::endian;
use crate::endian::{append_bytes, push_le, read_le};

pub mod control;
pub mod flags;
pub mod wire;

verus! {

/// Total datagram budget, matching Tailscale's default MTU.
pub const MTU: usize = 1280;

/// Fixed header in front of every datagram.
pub const HEADER_LEN: usize = 24;

/// Largest payload that still fits a single datagram.
pub const MAX_PAYLOAD: usize = MTU - HEADER_LEN;

pub const VERSION: u8 = 1;

/// Audio frames per packet. 64 frames at 48 kHz is 1.33 ms. The size is capped
/// by the redundancy scheme: a packet carries its own block plus a copy of the
/// previous one, and both must still fit a single datagram.
pub const AUDIO_FRAMES_PER_PACKET: usize = 64;

pub const AUDIO_CHANNELS: usize = 2;

/// Bytes of one packet's worth of interleaved 32-bit stereo. Independent of the
/// sample rate: only the packet *rate* changes with it.
pub const AUDIO_BLOCK_BYTES: usize = AUDIO_FRAMES_PER_PACKET * AUDIO_CHANNELS * 4;

/// Length of the datagram built by [`control_feedback_datagram`].
pub const FEEDBACK_LEN: usize = HEADER_LEN + 8;

/// Sample rates the link can carry.
///
/// The rate travels in every audio packet rather than being agreed up front, so
/// a receiver that joins mid-stream, or after a restart, is never left guessing.
#[derive(Debug, Clone, Copy, PartialEq, Eq, Structural)]
pub enum SampleRate {
    Hz44100,
    Hz48000,
    Hz88200,
    Hz96000,
}

impl SampleRate {
    /// Frames per second.
    pub open spec fn frequency(self) -> u32 {
        match self {
            SampleRate::Hz44100 => 44_100,
            SampleRate::Hz48000 => 48_000,
            SampleRate::Hz88200 => 88_200,
            SampleRate::Hz96000 => 96_000,
        }
    }

    /// The byte that stands for this rate on the wire.
    pub open spec fn wire(self) -> u8 {
        match self {
            SampleRate::Hz44100 => 1,
            SampleRate::Hz48000 => 2,
            SampleRate::Hz88200 => 3,
            SampleRate::Hz96000 => 4,
        }
    }

    /// The rate that a wire byte stands for, if any.
    pub open spec fn of_wire(code: u8) -> Option<SampleRate> {
        if code == 1 {
            Some(SampleRate::Hz44100)
        } else if code == 2 {
            Some(SampleRate::Hz48000)
        } else if code == 3 {
            Some(SampleRate::Hz88200)
        } else if code == 4 {
            Some(SampleRate::Hz96000)
        } else {
            None
        }
    }

    pub fn hz(self) -> (hz: u32)
        ensures
            hz == self.frequency(),
    {
        match self {
            SampleRate::Hz44100 => 44_100,
            SampleRate::Hz48000 => 48_000,
            SampleRate::Hz88200 => 88_200,
            SampleRate::Hz96000 => 96_000,
        }
    }

    /// The rate of a frequency, if it is one that the link carries.
    pub open spec fn of_frequency(hz: u32) -> Option<SampleRate> {
        if hz == 44_100 {
            Some(SampleRate::Hz44100)
        } else if hz == 48_000 {
            Some(SampleRate::Hz48000)
        } else if hz == 88_200 {
            Some(SampleRate::Hz88200)
        } else if hz == 96_000 {
            Some(SampleRate::Hz96000)
        } else {
            None
        }
    }

    pub fn from_hz(hz: u32) -> (rate: Option<Self>)
        ensures
            rate == SampleRate::of_frequency(hz),
            rate matches Some(r) ==> r.frequency() == hz,
            rate is None ==> forall|r: SampleRate| r.frequency() != hz,
    {
        match hz {
            44_100 => Some(SampleRate::Hz44100),
            48_000 => Some(SampleRate::Hz48000),
            88_200 => Some(SampleRate::Hz88200),
            96_000 => Some(SampleRate::Hz96000),
            _ => None,
        }
    }

    /// The byte that stands for this rate on the wire.
    pub fn code(self) -> (code: u8)
        ensures
            code == self.wire(),
    {
        match self {
            SampleRate::Hz44100 => 1,
            SampleRate::Hz48000 => 2,
            SampleRate::Hz88200 => 3,
            SampleRate::Hz96000 => 4,
        }
    }

    pub fn from_code(code: u8) -> (rate: Option<Self>)
        ensures
            rate == SampleRate::of_wire(code),
    {
        match code {
            1 => Some(SampleRate::Hz44100),
            2 => Some(SampleRate::Hz48000),
            3 => Some(SampleRate::Hz88200),
            4 => Some(SampleRate::Hz96000),
            _ => None,
        }
    }
}

#[derive(Debug, Clone, Copy, PartialEq, Eq, Structural)]
pub enum Kind {
    Video,
    Audio,
    /// Receiver to sender: keyframe requests, latency probes and feedback.
    Control,
}

impl Kind {
    /// The byte that stands for this kind on the wire.
    pub open spec fn wire(self) -> u8 {
        match self {
            Kind::Video => 0,
            Kind::Audio => 1,
            Kind::Control => 2,
        }
    }

    /// The kind that a wire byte stands for, if any.
    pub open spec fn of_wire(code: u8) -> Option<Kind> {
        if code == 0 {
            Some(Kind::Video)
        } else if code == 1 {
            Some(Kind::Audio)
        } else if code == 2 {
            Some(Kind::Control)
        } else {
            None
        }
    }

    /// The byte that stands for this kind on the wire.
    pub fn code(self) -> (code: u8)
        ensures
            code == self.wire(),
    {
        match self {
            Kind::Video => 0,
            Kind::Audio => 1,
            Kind::Control => 2,
        }
    }

    pub fn from_u8(v: u8) -> (kind: Option<Self>)
        ensures
            kind == Kind::of_wire(v),
    {
        match v {
            0 => Some(Kind::Video),
            1 => Some(Kind::Audio),
            2 => Some(Kind::Control),
            _ => None,
        }
    }
}

/// Fixed 24-byte header. All integers little-endian.
#[derive(Debug, Clone, Copy, PartialEq, Eq, Structural)]
pub struct Header {
    pub kind: Kind,
    /// Index of this fragment within its frame.
    pub fragment_index: u16,
    /// Total fragments the frame was split into.
    pub fragment_count: u16,
    /// Video: frame number. Audio: packet sequence number.
    pub seq: u64,
    /// Capture time on the sender's monotonic clock.
    pub pts_micros: u64,
    pub flags: u8,
    /// Audio packets carry their sample rate here. Ignored for other kinds.
    pub rate: Option<SampleRate>,
}

impl Header {
    /// The 24 bytes of this header on the wire.
    pub open spec fn bytes(self) -> Seq<u8> {
        seq![VERSION, self.kind.wire()] + endian::le_bytes(self.fragment_index as nat, 2)
            + endian::le_bytes(self.fragment_count as nat, 2) + endian::le_bytes(
            self.seq as nat,
            8,
        ) + endian::le_bytes(self.pts_micros as nat, 8) + seq![
            self.flags,
            match self.rate {
                Some(rate) => rate.wire(),
                None => 0,
            },
        ]
    }

    /// Whether the header describes a fragment of the frame it belongs to.
    pub open spec fn in_range(self) -> bool {
        self.fragment_index < self.fragment_count
    }

    /// The header that opens the datagram `buf`, if it opens with one.
    pub open spec fn opening(buf: Seq<u8>) -> Option<Header> {
        if buf.len() < HEADER_LEN || buf[0] != VERSION {
            None
        } else {
            match Kind::of_wire(buf[1]) {
                None => None,
                Some(kind) => {
                    let header = Header {
                        kind,
                        fragment_index: endian::le_value(buf.subrange(2, 4)) as u16,
                        fragment_count: endian::le_value(buf.subrange(4, 6)) as u16,
                        seq: endian::le_value(buf.subrange(6, 14)) as u64,
                        pts_micros: endian::le_value(buf.subrange(14, 22)) as u64,
                        flags: buf[22],
                        rate: SampleRate::of_wire(buf[23]),
                    };
                    if header.in_range() {
                        Some(header)
                    } else {
                        None
                    }
                },
            }
        }
    }

    /// Whether any bit of `flag` is set.
    pub open spec fn flagged(self, flag: u8) -> bool {
        self.flags & flag != 0
    }

    pub fn write(&self, out: &mut [u8; HEADER_LEN])
        ensures
            final(out)@ == self.bytes(),
    {
        out[0] = VERSION;
        out[1] = self.kind.code();
        put_le(out, 2, self.fragment_index as u64, 2);
        put_le(out, 4, self.fragment_count as u64, 2);
        put_le(out, 6, self.seq, 8);
        put_le(out, 14, self.pts_micros, 8);
        out[22] = self.flags;
        out[23] = match self.rate {
            Some(rate) => rate.code(),
            None => 0,
        };
        proof {
            broadcast use endian::lemma_le_bytes_len;

            assert(out@ =~= self.bytes());
        }
    }

    /// Reads the header of a datagram and the body behind it. Refuses a datagram
    /// that is too short, of another version, of an unknown kind, or whose
    /// fragment is not one of its frame's.
    pub fn parse(buf: &[u8]) -> (parsed: Option<(Header, &[u8])>)
        ensures
            parsed is Some <==> Header::opening(buf@) is Some,
            parsed matches Some((header, body)) ==> Header::opening(buf@) == Some(header) && body@
                == buf@.skip(HEADER_LEN as int),
    {
        if buf.len() < HEADER_LEN || buf[0] != VERSION {
            return None;
        }
        let kind = match Kind::from_u8(buf[1]) {
            Some(kind) => kind,
            None => {
                return None;
            },
        };
        proof {
            endian::lemma_pow256_values();
        }
        let header = Header {
            kind,
            fragment_index: read_le(buf, 2, 2) as u16,
            fragment_count: read_le(buf, 4, 2) as u16,
            seq: read_le(buf, 6, 8),
            pts_micros: read_le(buf, 14, 8),
            flags: buf[22],
            rate: SampleRate::from_code(buf[23]),
        };
        if header.fragment_count == 0 || header.fragment_index >= header.fragment_count {
            return None;
        }
        let body = vstd::slice::slice_subrange(buf, HEADER_LEN, buf.len());
        assert(body@ =~= buf@.skip(HEADER_LEN as int));
        Some((header, body))
    }

    pub fn has(&self, flag: u8) -> (set: bool)
        ensures
            set == self.flagged(flag),
    {
        self.flags & flag != 0
    }
}

/// Writes the `n` low bytes of `x` at `at`, least significant first.
fn put_le(out: &mut [u8; HEADER_LEN], at: usize, x: u64, n: usize)
    requires
        at + n <= HEADER_LEN,
    ensures
        forall|i: int|
            0 <= i < HEADER_LEN ==> #[trigger] final(out)@[i] == if at <= i < at + n {
                endian::le_bytes(x as nat, n as nat)[i - at]
            } else {
                old(out)@[i]
            },
{
    broadcast use endian::lemma_le_bytes_len;

    let ghost whole = endian::le_bytes(x as nat, n as nat);
    let mut rest: u64 = x;
    let mut i: usize = 0;
    assert(whole.skip(0) =~= whole);
    while i < n
        invariant
            i <= n,
            at + n <= HEADER_LEN,
            whole.len() == n,
            endian::le_bytes(rest as nat, (n - i) as nat) == whole.skip(i as int),
            forall|k: int|
                0 <= k < HEADER_LEN ==> #[trigger] out@[k] == if at <= k < at + i {
                    whole[k - at]
                } else {
                    old(out)@[k]
                },
        decreases n - i,
    {
        out[at + i] = (rest % 256) as u8;
        proof {
            let tail = endian::le_bytes(rest as nat, (n - i) as nat);
            assert(tail[0] == whole[i as int]);
            assert(tail.skip(1) =~= endian::le_bytes(rest as nat / 256, (n - i - 1) as nat));
            assert(tail.skip(1) =~= whole.skip(i + 1));
        }
        rest = rest / 256;
        i = i + 1;
    }
}

/// What is written as a header is read back, whatever body follows it.
pub proof fn law_header_roundtrips(header: Header, body: Seq<u8>)
    requires
        header.in_range(),
    ensures
        Header::opening(header.bytes() + body) == Some(header),
        (header.bytes() + body).skip(HEADER_LEN as int) == body,
        header.bytes().len() == HEADER_LEN,
{
    broadcast use endian::lemma_le_bytes_len;

    let buf = header.bytes() + body;
    endian::lemma_pow256_values();
    endian::law_value_of_bytes(header.fragment_index as nat, 2);
    endian::law_value_of_bytes(header.fragment_count as nat, 2);
    endian::law_value_of_bytes(header.seq as nat, 8);
    endian::law_value_of_bytes(header.pts_micros as nat, 8);
    assert(buf.subrange(2, 4) =~= endian::le_bytes(header.fragment_index as nat, 2));
    assert(buf.subrange(4, 6) =~= endian::le_bytes(header.fragment_count as nat, 2));
    assert(buf.subrange(6, 14) =~= endian::le_bytes(header.seq as nat, 8));
    assert(buf.subrange(14, 22) =~= endian::le_bytes(header.pts_micros as nat, 8));
    assert(buf.skip(HEADER_LEN as int) =~= body);
}

/// A datagram that parses starts with exactly the bytes of its header, unless
/// its rate byte is one that stands for no rate.
pub proof fn law_header_is_canonical(buf: Seq<u8>)
    requires
        Header::opening(buf) is Some,
        buf[23] <= 4,
    ensures
        Header::opening(buf)->0.bytes() == buf.take(HEADER_LEN as int),
{
    broadcast use endian::lemma_le_bytes_len;

    endian::lemma_pow256_values();
    endian::law_bytes_of_value(buf.subrange(2, 4));
    endian::law_bytes_of_value(buf.subrange(4, 6));
    endian::law_bytes_of_value(buf.subrange(6, 14));
    endian::law_bytes_of_value(buf.subrange(14, 22));
    assert(Header::opening(buf)->0.bytes() =~= buf.take(HEADER_LEN as int));
}

/// The header of a control datagram.
pub open spec fn control_header(flag: u8, stamp_micros: u64) -> Header {
    Header {
        kind: Kind::Control,
        fragment_index: 0,
        fragment_count: 1,
        seq: 0,
        pts_micros: stamp_micros,
        flags: flag,
        rate: None,
    }
}

/// Builds a control datagram. `stamp_micros` is echoed verbatim by a pong, so
/// round-trip time can be derived without the two clocks agreeing.
pub fn control_datagram(flag: u8, stamp_micros: u64) -> (datagram: [u8; HEADER_LEN])
    ensures
        datagram@ == control_header(flag, stamp_micros).bytes(),
{
    let header = Header {
        kind: Kind::Control,
        fragment_index: 0,
        fragment_count: 1,
        seq: 0,
        pts_micros: stamp_micros,
        flags: flag,
        rate: None,
    };
    let mut out: [u8; HEADER_LEN] = [0u8;HEADER_LEN];
    header.write(&mut out);
    out
}

/// A control datagram reads back as a control packet with the same flag and
/// stamp, and an empty body.
pub proof fn law_control_datagrams_roundtrip(flag: u8, stamp_micros: u64)
    ensures
        Header::opening(control_header(flag, stamp_micros).bytes()) == Some(
            control_header(flag, stamp_micros),
        ),
        control_header(flag, stamp_micros).bytes().skip(HEADER_LEN as int) == Seq::<u8>::empty(),
{
    let header = control_header(flag, stamp_micros);
    law_header_roundtrips(header, Seq::empty());
    assert(header.bytes() + Seq::<u8>::empty() =~= header.bytes());
}

/// The body of a feedback datagram.
pub open spec fn feedback_body(bitrate_bps: u32, parity: u32) -> Seq<u8> {
    endian::le_bytes(bitrate_bps as nat, 4) + endian::le_bytes(parity as nat, 4)
}

/// Builds the receiver's feedback datagram: the video bitrate it wants, and how
/// many parity blocks each fragment group should carry.
pub fn control_feedback_datagram(flag: u8, bitrate_bps: u32, parity: u32) -> (datagram: [u8;
    FEEDBACK_LEN])
    ensures
        datagram@ == control_header(flag, 0).bytes() + feedback_body(bitrate_bps, parity),
{
    let head = control_datagram(flag, 0);
    let mut body: Vec<u8> = Vec::new();
    push_le(&mut body, bitrate_bps as u64, 4);
    push_le(&mut body, parity as u64, 4);
    proof {
        broadcast use endian::lemma_le_bytes_len;

        assert(body@ =~= feedback_body(bitrate_bps, parity));
    }
    let mut out: [u8; FEEDBACK_LEN] = [0u8;FEEDBACK_LEN];
    let mut i: usize = 0;
    while i < FEEDBACK_LEN
        invariant
            i <= FEEDBACK_LEN,
            body@.len() == 8,
            forall|k: int|
                0 <= k < i ==> #[trigger] out@[k] == if k < HEADER_LEN {
                    head@[k]
                } else {
                    body@[k - HEADER_LEN]
                },
        decreases FEEDBACK_LEN - i,
    {
        out[i] = if i < HEADER_LEN {
            head[i]
        } else {
            body[i - HEADER_LEN]
        };
        i = i + 1;
    }
    assert(out@ =~= head@ + body@);
    out
}

/// Reads a [`control_feedback_datagram`] body as (bitrate, parity blocks). A
/// truncated body is refused.
pub fn control_feedback(body: &[u8]) -> (feedback: Option<(u32, u32)>)
    ensures
        feedback is Some <==> body@.len() >= 8,
        feedback matches Some((bitrate, parity)) ==> bitrate == endian::le_value(
            body@.subrange(0, 4),
        ) && parity == endian::le_value(body@.subrange(4, 8)),
{
    if body.len() < 8 {
        return None;
    }
    proof {
        endian::lemma_pow256_values();
    }
    Some((read_le(body, 0, 4) as u32, read_le(body, 4, 4) as u32))
}

/// What the receiver asks for is what the sender reads, in a packet of kind
/// control that carries the flag.
pub proof fn law_control_feedback_roundtrips(flag: u8, bitrate_bps: u32, parity: u32)
    ensures
        ({
            let datagram = control_header(flag, 0).bytes() + feedback_body(bitrate_bps, parity);
            let body = datagram.skip(HEADER_LEN as int);
            &&& Header::opening(datagram) == Some(control_header(flag, 0))
            &&& body.len() >= 8
            &&& endian::le_value(body.subrange(0, 4)) == bitrate_bps
            &&& endian::le_value(body.subrange(4, 8)) == parity
        }),
{
    broadcast use endian::lemma_le_bytes_len;

    let body = feedback_body(bitrate_bps, parity);
    law_header_roundtrips(control_header(flag, 0), body);
    endian::lemma_pow256_values();
    endian::law_value_of_bytes(bitrate_bps as nat, 4);
    endian::law_value_of_bytes(parity as nat, 4);
    assert(body.subrange(0, 4) =~= endian::le_bytes(bitrate_bps as nat, 4));
    assert(body.subrange(4, 8) =~= endian::le_bytes(parity as nat, 4));
}

/// The contents of a list of byte vectors.
pub open spec fn contents(list: Seq<Vec<u8>>) -> Seq<Seq<u8>> {
    list.map_values(|item: Vec<u8>| item@)
}

pub proof fn lemma_contents_push(list: Seq<Vec<u8>>, item: Vec<u8>)
    ensures
        contents(list.push(item)) == contents(list).push(item@),
{
    assert(contents(list.push(item)) =~= contents(list).push(item@));
}

/// The datagrams that carry `payload`, each under `header` with its own index.
pub open spec fn fragments(header: Header, payload: Seq<u8>) -> Seq<Seq<u8>> {
    let count = chunks::block_count(payload.len(), MAX_PAYLOAD as nat);
    Seq::new(
        count,
        |i: int|
            (Header { fragment_index: i as u16, fragment_count: count as u16, ..header }).bytes()
                + chunks::block(payload, MAX_PAYLOAD as nat, i),
    )
}

/// Splits `payload` across datagrams and appends them to `out` in order.
pub fn fragment(header: Header, payload: &[u8], out: &mut Vec<Vec<u8>>)
    ensures
        contents(final(out)@) == contents(old(out)@) + fragments(header, payload@),
{
    let count: usize = count_blocks(payload.len(), MAX_PAYLOAD);
    let mut index: usize = 0;
    assert(contents(out@) =~= contents(old(out)@) + fragments(header, payload@).take(0));
    while index < count
        invariant
            index <= count,
            count == chunks::block_count(payload@.len(), MAX_PAYLOAD as nat),
            contents(out@) == contents(old(out)@) + fragments(header, payload@).take(index as int),
        decreases count - index,
    {
        let own = Header { fragment_index: index as u16, fragment_count: count as u16, ..header };
        let mut head: [u8; HEADER_LEN] = [0u8;HEADER_LEN];
        own.write(&mut head);
        let mut datagram: Vec<u8> = Vec::new();
        append_bytes(&mut datagram, &head);
        append_bytes(&mut datagram, take_block(payload, MAX_PAYLOAD, index));
        proof {
            let all = fragments(header, payload@);
            assert(datagram@ =~= all[index as int]);
            lemma_contents_push(out@, datagram);
            assert(all.take(index + 1) =~= all.take(index as int).push(all[index as int]));
        }
        out.push(datagram);
        index = index + 1;
    }
    assert(fragments(header, payload@).take(count as int) =~= fragments(header, payload@));
}

/// Every fragment fits one datagram, names its own place, and the bodies put
/// together are the payload, for a payload that needs at most 65535 of them.
pub proof fn law_fragments_cover_payload(header: Header, payload: Seq<u8>)
    requires
        chunks::block_count(payload.len(), MAX_PAYLOAD as nat) <= u16::MAX,
    ensures
        ({
            let all = fragments(header, payload);
            &&& all.len() == chunks::block_count(payload.len(), MAX_PAYLOAD as nat)
            &&& forall|i: int|
                0 <= i < all.len() ==> {
                    &&& (#[trigger] all[i]).len() <= MTU
                    &&& Header::opening(all[i]) == Some(
                        (Header {
                            fragment_index: i as u16,
                            fragment_count: all.len() as u16,
                            ..header
                        }),
                    )
                }
            &&& chunks::joined(all.map_values(|d: Seq<u8>| d.skip(HEADER_LEN as int))) == payload
        }),
{
    let all = fragments(header, payload);
    let blocks = chunks::blocks(payload, MAX_PAYLOAD as nat);
    let bodies = all.map_values(|d: Seq<u8>| d.skip(HEADER_LEN as int));
    assert forall|i: int| 0 <= i < all.len() implies {
        &&& (#[trigger] all[i]).len() <= MTU
        &&& Header::opening(all[i]) == Some(
            (Header { fragment_index: i as u16, fragment_count: all.len() as u16, ..header }),
        )
        &&& bodies[i] == blocks[i]
    } by {
        let own = Header { fragment_index: i as u16, fragment_count: all.len() as u16, ..header };
        law_header_roundtrips(own, blocks[i]);
        chunks::lemma_block_len(payload, MAX_PAYLOAD as nat, i);
    }
    assert(bodies =~= blocks);
    chunks::law_blocks_join(payload, MAX_PAYLOAD as nat);
}

/// Parameter sets, each behind its length.
pub open spec fn sets_bytes(sets: Seq<Seq<u8>>) -> Seq<u8>
    decreases sets.len(),
{
    if sets.len() == 0 {
        seq![]
    } else {
        endian::le_bytes((sets.first().len() as u32) as nat, 4) + sets.first() + sets_bytes(
            sets.drop_first(),
        )
    }
}

/// The blob of parameter sets: how many there are, then the sets.
pub open spec fn params_bytes(sets: Seq<Seq<u8>>) -> Seq<u8> {
    seq![sets.len() as u8] + sets_bytes(sets)
}

proof fn lemma_sets_bytes_push(sets: Seq<Seq<u8>>, last: Seq<u8>)
    ensures
        sets_bytes(sets.push(last)) == sets_bytes(sets) + endian::le_bytes(
            (last.len() as u32) as nat,
            4,
        ) + last,
    decreases sets.len(),
{
    let longer = sets.push(last);
    if sets.len() == 0 {
        reveal_with_fuel(sets_bytes, 2);
        assert(longer.drop_first() =~= Seq::<Seq<u8>>::empty());
        assert(sets_bytes(longer) =~= sets_bytes(sets) + endian::le_bytes(
            (last.len() as u32) as nat,
            4,
        ) + last);
    } else {
        lemma_sets_bytes_push(sets.drop_first(), last);
        assert(longer.drop_first() =~= sets.drop_first().push(last));
        assert(sets_bytes(longer) =~= sets_bytes(sets) + endian::le_bytes(
            (last.len() as u32) as nat,
            4,
        ) + last);
    }
}

/// Encodes HEVC parameter sets as their count in one byte, then each set behind
/// its length in four.
pub fn write_params(sets: &[Vec<u8>], out: &mut Vec<u8>)
    ensures
        final(out)@ == old(out)@ + params_bytes(contents(sets@)),
{
    out.push(sets.len() as u8);
    let mut i: usize = 0;
    let ghost all = contents(sets@);
    assert(out@ =~= old(out)@ + seq![all.len() as u8] + sets_bytes(all.take(0)));
    while i < sets.len()
        invariant
            i <= sets@.len(),
            all == contents(sets@),
            out@ == old(out)@ + seq![all.len() as u8] + sets_bytes(all.take(i as int)),
        decreases sets@.len() - i,
    {
        let set: &Vec<u8> = &sets[i];
        push_le(out, set.len() as u32 as u64, 4);
        append_bytes(out, set.as_slice());
        proof {
            lemma_sets_bytes_push(all.take(i as int), all[i as int]);
            assert(all.take(i + 1) =~= all.take(i as int).push(all[i as int]));
            assert(out@ =~= old(out)@ + seq![all.len() as u8] + sets_bytes(all.take(i + 1)));
        }
        i = i + 1;
    }
    assert(all.take(i as int) =~= all);
    assert(out@ =~= old(out)@ + params_bytes(all));
}

/// The `n` sets at the front of `buf` and what follows them, if they are there
/// in full.
pub open spec fn sets_opening(n: nat, buf: Seq<u8>) -> Option<(Seq<Seq<u8>>, Seq<u8>)>
    decreases n,
{
    if n == 0 {
        Some((seq![], buf))
    } else if buf.len() < 4 {
        None
    } else {
        let len = endian::le_value(buf.take(4)) as int;
        let tail = buf.skip(4);
        if tail.len() < len {
            None
        } else {
            match sets_opening((n - 1) as nat, tail.skip(len)) {
                None => None,
                Some((sets, rest)) => Some((seq![tail.take(len)] + sets, rest)),
            }
        }
    }
}

/// The blob of sets at the front of `buf` and what follows it.
pub open spec fn params_opening(buf: Seq<u8>) -> Option<(Seq<Seq<u8>>, Seq<u8>)> {
    if buf.len() == 0 {
        None
    } else {
        sets_opening(buf[0] as nat, buf.skip(1))
    }
}

/// Reads what [`write_params`] wrote, returning the sets and the frame data
/// behind them. A blob that is cut short is refused.
pub fn read_params(buf: &[u8]) -> (parsed: Option<(Vec<Vec<u8>>, &[u8])>)
    ensures
        parsed is Some <==> params_opening(buf@) is Some,
        parsed matches Some((sets, rest)) ==> params_opening(buf@) == Some(
            (contents(sets@), rest@),
        ),
{
    if buf.len() == 0 {
        return None;
    }
    let count: u8 = buf[0];
    let mut sets: Vec<Vec<u8>> = Vec::new();
    let mut at: usize = 1;
    let mut i: u8 = 0;
    assert(params_opening(buf@) == sets_opening(count as nat, buf@.skip(1)));
    assert(contents(sets@) =~= seq![]);
    proof {
        match sets_opening(count as nat, buf@.skip(1)) {
            None => {},
            Some((more, rest)) => {
                assert(contents(sets@) + more =~= more);
            },
        }
    }
    while i < count
        invariant
            i <= count,
            1 <= at <= buf@.len(),
            params_opening(buf@) == match sets_opening((count - i) as nat, buf@.skip(at as int)) {
                None => None,
                Some((more, rest)) => Some((contents(sets@) + more, rest)),
            },
        decreases count - i,
    {
        let ghost rest = buf@.skip(at as int);
        if buf.len() - at < 4 {
            return None;
        }
        proof {
            endian::lemma_pow256_values();
            assert(buf@.subrange(at as int, at + 4) =~= rest.take(4));
            assert(rest.skip(4) =~= buf@.skip(at + 4));
        }
        let len: u64 = read_le(buf, at, 4);
        let start: usize = at + 4;
        if ((buf.len() - start) as u64) < len {
            return None;
        }
        let end: usize = start + len as usize;
        let set = vstd::slice::slice_to_vec(vstd::slice::slice_subrange(buf, start, end));
        proof {
            let tail = rest.skip(4);
            assert(set@ =~= tail.take(len as int));
            assert(tail.skip(len as int) =~= buf@.skip(end as int));
            lemma_contents_push(sets@, set);
            match sets_opening((count - i - 1) as nat, buf@.skip(end as int)) {
                None => {},
                Some((more, after)) => {
                    assert(contents(sets@) + (seq![set@] + more) =~= contents(sets@).push(set@)
                        + more);
                },
            }
        }
        sets.push(set);
        at = end;
        i = i + 1;
    }
    assert(contents(sets@) + Seq::<Seq<u8>>::empty() =~= contents(sets@));
    let rest = vstd::slice::slice_subrange(buf, at, buf.len());
    assert(rest@ =~= buf@.skip(at as int));
    Some((sets, rest))
}

proof fn lemma_sets_roundtrip(sets: Seq<Seq<u8>>, rest: Seq<u8>)
    requires
        forall|i: int| 0 <= i < sets.len() ==> (#[trigger] sets[i]).len() <= u32::MAX,
    ensures
        sets_opening(sets.len(), sets_bytes(sets) + rest) == Some((sets, rest)),
    decreases sets.len(),
{
    let buf = sets_bytes(sets) + rest;
    if sets.len() == 0 {
        assert(buf =~= rest);
        assert(sets =~= seq![]);
    } else {
        broadcast use endian::lemma_le_bytes_len;

        let first = sets.first();
        let more = sets.drop_first();
        assert(sets[0].len() <= u32::MAX);
        endian::lemma_pow256_values();
        endian::law_value_of_bytes(first.len(), 4);
        assert(buf.take(4) =~= endian::le_bytes(first.len(), 4));
        assert(buf.skip(4).take(first.len() as int) =~= first);
        assert(buf.skip(4).skip(first.len() as int) =~= sets_bytes(more) + rest);
        assert forall|i: int| 0 <= i < more.len() implies (#[trigger] more[i]).len()
            <= u32::MAX by {
            assert(more[i] == sets[i + 1]);
        }
        lemma_sets_roundtrip(more, rest);
        assert(seq![first] + more =~= sets);
    }
}

/// Parameter sets and the frame data behind them come back as they were
/// written, when there are at most 255 sets and each length fits four bytes.
pub proof fn law_params_roundtrip(sets: Seq<Seq<u8>>, rest: Seq<u8>)
    requires
        sets.len() <= u8::MAX,
        forall|i: int| 0 <= i < sets.len() ==> (#[trigger] sets[i]).len() <= u32::MAX,
    ensures
        params_opening(params_bytes(sets) + rest) == Some((sets, rest)),
{
    let buf = params_bytes(sets) + rest;
    lemma_sets_roundtrip(sets, rest);
    assert(buf.skip(1) =~= sets_bytes(sets) + rest);
}

proof fn lemma_sets_cut(sets: Seq<Seq<u8>>, cut: int)
    requires
        forall|i: int| 0 <= i < sets.len() ==> (#[trigger] sets[i]).len() <= u32::MAX,
        0 <= cut < sets_bytes(sets).len(),
    ensures
        sets_opening(sets.len(), sets_bytes(sets).take(cut)) is None,
    decreases sets.len(),
{
    if sets.len() > 0 {
        broadcast use endian::lemma_le_bytes_len;

        let whole = sets_bytes(sets);
        let buf = whole.take(cut);
        let first = sets.first();
        let more = sets.drop_first();
        assert(sets[0].len() <= u32::MAX);
        if buf.len() >= 4 {
            endian::lemma_pow256_values();
            endian::law_value_of_bytes(first.len(), 4);
            assert(buf.take(4) =~= endian::le_bytes(first.len(), 4));
            let tail = buf.skip(4);
            if tail.len() >= first.len() {
                let after = cut - 4 - first.len();
                assert(tail.skip(first.len() as int) =~= sets_bytes(more).take(after));
                assert forall|i: int| 0 <= i < more.len() implies (#[trigger] more[i]).len()
                    <= u32::MAX by {
                    assert(more[i] == sets[i + 1]);
                }
                lemma_sets_cut(more, after);
            }
        }
    }
}

/// A blob of parameter sets that is cut short anywhere is refused.
pub proof fn law_truncated_params_are_rejected(sets: Seq<Seq<u8>>, cut: int)
    requires
        sets.len() <= u8::MAX,
        forall|i: int| 0 <= i < sets.len() ==> (#[trigger] sets[i]).len() <= u32::MAX,
        0 <= cut < params_bytes(sets).len(),
    ensures
        params_opening(params_bytes(sets).take(cut)) is None,
{
    let buf = params_bytes(sets).take(cut);
    if cut > 0 {
        assert(buf.skip(1) =~= sets_bytes(sets).take(cut - 1));
        lemma_sets_cut(sets, cut - 1);
    }
}

} // verus!
