//! Turns a stream of captured audio into fixed-size packets.
//!
//! The capture delivers audio in whatever chunk size it likes, so this re-blocks
//! it to a constant packet size and attaches the previous block as forward error
//! correction.

use vstd::prelude::*;

use crate::packet::{
    flags, Header, Kind, SampleRate, AUDIO_BLOCK_BYTES, AUDIO_CHANNELS, AUDIO_FRAMES_PER_PACKET,
    MAX_PAYLOAD,
};
use crate::samples;
use crate::samples::append_samples;

verus! {

/// Interleaved samples in one packet.
pub const SAMPLES_PER_PACKET: usize = AUDIO_FRAMES_PER_PACKET * AUDIO_CHANNELS;

/// The state of a packetizer.
#[verifier::ext_equal]
pub struct PacketizerView {
    /// Samples not yet forming a whole packet.
    pub pending: Seq<u32>,
    pub seq: u64,
    /// The block before the next one, if there was one.
    pub previous: Option<Seq<u8>>,
    pub fec: bool,
    pub rate: SampleRate,
}

/// The length of `frames` at a sample rate, rounded down.
pub open spec fn micros(frames: nat, rate: SampleRate) -> nat {
    frames * 1_000_000 / rate.frequency() as nat
}

/// How long one packet lasts, rounded down.
pub open spec fn packet_micros(rate: SampleRate) -> nat {
    micros(AUDIO_FRAMES_PER_PACKET as nat, rate)
}

impl PacketizerView {
    /// Less than a packet is ever held back, and a block is a packet's worth.
    pub open spec fn valid(self) -> bool {
        &&& self.pending.len() < SAMPLES_PER_PACKET
        &&& self.previous matches Some(block) ==> block.len() == AUDIO_BLOCK_BYTES
    }

    /// All samples at hand once `more` have come in.
    pub open spec fn at_hand(self, more: Seq<u32>) -> Seq<u32> {
        self.pending + more
    }

    /// How many packets `more` samples complete.
    pub open spec fn packets(self, more: Seq<u32>) -> nat {
        self.at_hand(more).len() / SAMPLES_PER_PACKET as nat
    }

    /// The bytes of block `i`.
    pub open spec fn block(self, more: Seq<u32>, i: int) -> Seq<u8> {
        samples::sample_bytes(
            self.at_hand(more).subrange(
                i * SAMPLES_PER_PACKET,
                i * SAMPLES_PER_PACKET + SAMPLES_PER_PACKET,
            ),
        )
    }

    /// The block before block `i`, if there was one.
    pub open spec fn before(self, more: Seq<u32>, i: int) -> Option<Seq<u8>> {
        if i == 0 {
            self.previous
        } else {
            Some(self.block(more, i - 1))
        }
    }

    /// When the first sample at hand was captured: as long before the samples
    /// that just came in as the held ones last.
    pub open spec fn head_pts(self, capture_pts_micros: u64) -> nat {
        let held = micros(self.pending.len() / AUDIO_CHANNELS as nat, self.rate);
        if held <= capture_pts_micros {
            (capture_pts_micros - held) as nat
        } else {
            0
        }
    }

    /// Whether `count` more samples can be numbered and stamped.
    pub open spec fn can_take(self, count: nat, capture_pts_micros: u64) -> bool {
        let n = (self.pending.len() + count) / SAMPLES_PER_PACKET as nat;
        &&& self.pending.len() + count <= usize::MAX
        &&& self.seq + n <= u64::MAX
        &&& self.head_pts(capture_pts_micros) + n * packet_micros(self.rate) <= u64::MAX
    }

    /// Packet `i` of those that `more` samples complete. Its block is followed by
    /// the one before it, where redundancy is on and there is one.
    pub open spec fn packet(self, more: Seq<u32>, capture_pts_micros: u64, i: int) -> (
        Header,
        Seq<u8>,
    ) {
        let redundant = self.fec && self.before(more, i) is Some;
        (
            Header {
                kind: Kind::Audio,
                fragment_index: 0,
                fragment_count: 1,
                seq: (self.seq + i) as u64,
                pts_micros: (self.head_pts(capture_pts_micros) + i * packet_micros(
                    self.rate,
                )) as u64,
                flags: if redundant {
                    flags::HAS_FEC
                } else {
                    0
                },
                rate: Some(self.rate),
            },
            if redundant {
                self.block(more, i) + self.before(more, i)->0
            } else {
                self.block(more, i)
            },
        )
    }

    /// The packets that `more` samples complete.
    pub open spec fn emitted(self, more: Seq<u32>, capture_pts_micros: u64) -> Seq<
        (Header, Seq<u8>),
    > {
        Seq::new(self.packets(more), |i: int| self.packet(more, capture_pts_micros, i))
    }

    /// The state after `more` samples.
    pub open spec fn after(self, more: Seq<u32>) -> PacketizerView {
        let n = self.packets(more);
        PacketizerView {
            pending: self.at_hand(more).skip((n * SAMPLES_PER_PACKET) as int),
            seq: (self.seq + n) as u64,
            previous: self.before(more, n as int),
            ..self
        }
    }
}

/// What is in a list of packets.
pub open spec fn packets_in(list: Seq<(Header, Vec<u8>)>) -> Seq<(Header, Seq<u8>)> {
    list.map_values(|packet: (Header, Vec<u8>)| (packet.0, packet.1@))
}

pub struct AudioPacketizer {
    /// Samples not yet forming a whole packet.
    pending: Vec<u32>,
    seq: u64,
    /// Previous packet's bytes, sent alongside the next one as redundancy.
    previous: Option<Vec<u8>>,
    fec: bool,
    /// Stamped on every packet so the receiver never has to assume a rate.
    rate: SampleRate,
}

impl AudioPacketizer {
    pub closed spec fn model(self) -> PacketizerView {
        PacketizerView {
            pending: self.pending@,
            seq: self.seq,
            previous: match self.previous {
                Some(block) => Some(block@),
                None => None,
            },
            fec: self.fec,
            rate: self.rate,
        }
    }

    pub open spec fn valid(self) -> bool {
        self.model().valid()
    }

    pub fn new(fec: bool, rate: SampleRate) -> (packetizer: Self)
        ensures
            packetizer.valid(),
            packetizer.model() == PacketizerView::initial(fec, rate),
    {
        AudioPacketizer { pending: Vec::new(), seq: 0, previous: None, fec, rate }
    }
}

impl AudioPacketizer {
    /// When the first sample at hand was captured, if the next one was captured at
    /// `capture_pts_micros`.
    fn head(&self, capture_pts_micros: u64) -> (pts: u64)
        requires
            self.valid(),
        ensures
            pts == self.model().head_pts(capture_pts_micros),
    {
        let held_frames: u64 = (self.pending.len() / AUDIO_CHANNELS) as u64;
        let held_micros: u64 = held_frames * 1_000_000 / self.rate.hz() as u64;
        if held_micros <= capture_pts_micros {
            capture_pts_micros - held_micros
        } else {
            0
        }
    }

    /// Whether `count` more samples can be numbered and stamped.
    pub fn can_take(&self, count: usize, capture_pts_micros: u64) -> (fits: bool)
        requires
            self.valid(),
        ensures
            fits == self.model().can_take(count as nat, capture_pts_micros),
    {
        assert(SAMPLES_PER_PACKET == 128) by (nonlinear_arith);
        let held: usize = self.pending.len();
        if count > usize::MAX - held {
            return false;
        }
        let n: u128 = ((held + count) / SAMPLES_PER_PACKET) as u128;
        let step: u128 = AUDIO_FRAMES_PER_PACKET as u128 * 1_000_000 / self.rate.hz() as u128;
        proof {
            assert(n * step <= 0xffff_ffff_ffff_ffff * 64_000_000) by (nonlinear_arith)
                requires
                    0 <= n <= 0xffff_ffff_ffff_ffff,
                    0 <= step <= 64_000_000,
            ;
        }
        self.seq as u128 + n <= u64::MAX as u128 && self.head(capture_pts_micros) as u128 + n * step
            <= u64::MAX as u128
    }

    /// Accepts interleaved stereo samples, appending every whole packet to `out`.
    ///
    /// `capture_pts_micros` is the capture timestamp of the first sample in
    /// `samples`. Re-deriving the head timestamp from it on every call keeps
    /// the stream anchored to the capture clock and follows any discontinuity
    /// rather than drifting away from it.
    pub fn push(
        &mut self,
        samples: &[u32],
        capture_pts_micros: u64,
        out: &mut Vec<(Header, Vec<u8>)>,
    )
        requires
            old(self).valid(),
            old(self).model().can_take(samples@.len(), capture_pts_micros),
        ensures
            final(self).valid(),
            final(self).model() == old(self).model().after(samples@),
            packets_in(final(out)@) == packets_in(old(out)@) + old(self).model().emitted(
                samples@,
                capture_pts_micros,
            ),
    {
        let ghost state = self.model();
        let ghost all = state.at_hand(samples@);
        let ghost n = state.packets(samples@);
        let ghost step = packet_micros(state.rate);
        let hz: u64 = self.rate.hz() as u64;
        let head: u64 = self.head(capture_pts_micros);
        let step_micros: u64 = AUDIO_FRAMES_PER_PACKET as u64 * 1_000_000 / hz;

        let mut pts_micros: u64 = head;
        self.pending.extend_from_slice(samples);
        assert(self.pending@ =~= all);
        let total: usize = self.pending.len();
        let mut consumed: usize = 0;
        let ghost mut i: int = 0;
        proof {
            assert(0 * step == 0) by (nonlinear_arith);
            assert(packets_in(out@) =~= packets_in(old(out)@) + state.emitted(
                samples@,
                capture_pts_micros,
            ).take(0));
        }
        proof {
            assert(SAMPLES_PER_PACKET == 128) by (nonlinear_arith);
            assert(AUDIO_BLOCK_BYTES == 512) by (nonlinear_arith);
        }
        while total - consumed >= SAMPLES_PER_PACKET
            invariant
                SAMPLES_PER_PACKET == 128,
                AUDIO_BLOCK_BYTES == 512,
                consumed <= total,
                total == self.pending@.len(),
                self.pending@ == all,
                all == state.at_hand(samples@),
                n == state.packets(samples@),
                step == packet_micros(state.rate),
                step_micros == step,
                0 <= i <= n,
                consumed == i * SAMPLES_PER_PACKET,
                self.fec == state.fec,
                self.rate == state.rate,
                self.seq == state.seq + i,
                state.seq + n <= u64::MAX,
                head == state.head_pts(capture_pts_micros),
                pts_micros == head + i * step,
                head + n * step <= u64::MAX,
                self.model().previous == state.before(samples@, i),
                self.previous matches Some(block) ==> block@.len() == AUDIO_BLOCK_BYTES,
                packets_in(out@) == packets_in(old(out)@) + state.emitted(
                    samples@,
                    capture_pts_micros,
                ).take(i),
            decreases total - consumed,
        {
            let end: usize = consumed + SAMPLES_PER_PACKET;
            let mut block: Vec<u8> = Vec::new();
            append_samples(&mut block, self.pending.as_slice(), consumed, end);
            let ghost whole = state.block(samples@, i);
            proof {
                assert(block@ =~= whole);
                samples::lemma_sample_bytes(
                    all.subrange(consumed as int, end as int),
                );
                assert(i + 1 <= n);
                assert((i + 1) * step == i * step + step && (i + 1) * step <= n * step)
                    by (nonlinear_arith)
                    requires
                        i + 1 <= n,
                        step >= 0,
                ;
            }

            let mut payload: Vec<u8> = Vec::new();
            crate::endian::append_bytes(&mut payload, block.as_slice());
            let mut has_fec: bool = false;
            if self.fec {
                if let Some(previous) = &self.previous {
                    crate::endian::append_bytes(&mut payload, previous.as_slice());
                    has_fec = true;
                }
            }
            let header = Header {
                kind: Kind::Audio,
                fragment_index: 0,
                fragment_count: 1,
                seq: self.seq,
                pts_micros,
                flags: if has_fec {
                    flags::HAS_FEC
                } else {
                    0
                },
                rate: Some(self.rate),
            };
            proof {
                let packet = state.packet(samples@, capture_pts_micros, i);
                let emitted = state.emitted(samples@, capture_pts_micros);
                assert(payload@ =~= packet.1);
                assert(header == packet.0);
                assert(packets_in(out@.push((header, payload))) =~= packets_in(out@).push(packet));
                assert(emitted.take(i + 1) =~= emitted.take(i).push(emitted[i]));
            }
            out.push((header, payload));

            self.seq = self.seq + 1;
            pts_micros = pts_micros + step_micros;
            self.previous = Some(block);
            consumed = end;
            proof {
                i = i + 1;
            }
        }
        proof {
            let len = total as nat;
            assert(i == len / 128) by (nonlinear_arith)
                requires
                    i * 128 <= len < i * 128 + 128,
            ;
            assert(state.emitted(samples@, capture_pts_micros).take(i) =~= state.emitted(
                samples@,
                capture_pts_micros,
            ));
        }
        self.pending = self.pending.split_off(consumed);
        assert(self.pending@ =~= all.skip((n * SAMPLES_PER_PACKET) as int));
    }
}

proof fn lemma_sizes()
    ensures
        SAMPLES_PER_PACKET == 128,
        AUDIO_BLOCK_BYTES == 512,
{
    assert(SAMPLES_PER_PACKET == 128) by (nonlinear_arith);
    assert(AUDIO_BLOCK_BYTES == 512) by (nonlinear_arith);
}

/// A packet never needs fragmenting, even with the copy of the block before it:
/// splitting audio across datagrams would let a single loss destroy both. Its
/// block is a packet's worth of samples, and every packet states the rate.
pub proof fn law_packets_fit_a_datagram(
    state: PacketizerView,
    more: Seq<u32>,
    capture_pts_micros: u64,
    i: int,
)
    requires
        state.valid(),
        0 <= i < state.packets(more),
    ensures
        ({
            let (header, payload) = state.emitted(more, capture_pts_micros)[i];
            &&& payload.len() <= MAX_PAYLOAD
            &&& payload.len() == if header.flagged(flags::HAS_FEC) {
                2 * AUDIO_BLOCK_BYTES
            } else {
                AUDIO_BLOCK_BYTES as int
            }
            &&& header.flagged(flags::HAS_FEC) <==> state.fec && state.before(more, i) is Some
            &&& header.rate == Some(state.rate)
        }),
{
    lemma_sizes();
    let all = state.at_hand(more);
    lemma_block_bounds(all.len(), i);
    samples::lemma_sample_bytes(all.subrange(i * 128, i * 128 + 128));
    if i > 0 {
        lemma_block_bounds(all.len(), i - 1);
        samples::lemma_sample_bytes(all.subrange((i - 1) * 128, (i - 1) * 128 + 128));
    }
    assert(0x04u8 & 0x04u8 != 0 && 0u8 & 0x04u8 == 0) by (bit_vector);
}

pub proof fn lemma_block_bounds(len: nat, i: int)
    requires
        0 <= i < len / 128,
    ensures
        0 <= i * 128,
        i * 128 + 128 <= len,
{
}

/// A packet without its timestamp.
pub open spec fn unstamped(packet: (Header, Seq<u8>)) -> (Header, Seq<u8>) {
    (Header { pts_micros: 0, ..packet.0 }, packet.1)
}

/// It does not matter in what chunks the capture delivers the audio: the same
/// samples make the same packets, up to their timestamps.
pub proof fn law_chunking_does_not_matter(
    state: PacketizerView,
    first: Seq<u32>,
    second: Seq<u32>,
    first_pts: u64,
    second_pts: u64,
    whole_pts: u64,
)
    requires
        state.valid(),
        state.seq + state.packets(first + second) <= u64::MAX,
    ensures
        state.after(first).after(second) == state.after(first + second),
        state.emitted(first + second, whole_pts).map_values(
            |packet: (Header, Seq<u8>)| unstamped(packet),
        ) == (state.emitted(first, first_pts) + state.after(first).emitted(
            second,
            second_pts,
        )).map_values(|packet: (Header, Seq<u8>)| unstamped(packet)),
{
    lemma_sizes();
    let middle = state.after(first);
    let all = state.at_hand(first + second);
    let head = state.at_hand(first);
    let n = state.packets(first);
    let m = middle.packets(second);
    let whole = state.packets(first + second);
    assert(all =~= head + second);
    assert(middle.at_hand(second) =~= all.skip((n * 128) as int));
    assert(whole == n + m) by {
        let len = all.len();
        assert(n * 128 <= len);
        assert(len == n * 128 + middle.at_hand(second).len());
        assert((n * 128 + middle.at_hand(second).len()) / 128 == n + middle.at_hand(second).len()
            / 128);
    }
    assert forall|i: int| 0 <= i < whole implies #[trigger] state.block(first + second, i)
        == if i < n {
        state.block(first, i)
    } else {
        middle.block(second, i - n)
    } by {
        lemma_block_bounds(all.len(), i);
        if i < n {
            lemma_block_bounds(head.len(), i);
            assert(all.subrange(i * 128, i * 128 + 128) =~= head.subrange(i * 128, i * 128 + 128));
        } else {
            let j = i - n;
            let tail = middle.at_hand(second);
            lemma_block_bounds(tail.len(), j);
            assert(all.subrange(i * 128, i * 128 + 128) =~= tail.subrange(j * 128, j * 128 + 128));
        }
    }
    assert forall|i: int| 0 <= i <= whole implies #[trigger] state.before(first + second, i)
        == if i < n || (i == n && n == whole) {
        state.before(first, i)
    } else {
        middle.before(second, i - n)
    } by {
        if i > 0 {
            assert(state.block(first + second, i - 1) == if i - 1 < n {
                state.block(first, i - 1)
            } else {
                middle.block(second, i - 1 - n)
            });
        }
    }
    let strip = |packet: (Header, Seq<u8>)| unstamped(packet);
    let left = state.emitted(first + second, whole_pts).map_values(strip);
    let right = (state.emitted(first, first_pts) + middle.emitted(second, second_pts)).map_values(
        strip,
    );
    assert(left.len() == right.len());
    assert forall|i: int| 0 <= i < left.len() implies left[i] == right[i] by {
        assert(state.block(first + second, i) == if i < n {
            state.block(first, i)
        } else {
            middle.block(second, i - n)
        });
        assert(state.before(first + second, i) == if i < n || (i == n && n == whole) {
            state.before(first, i)
        } else {
            middle.before(second, i - n)
        });
    }
    assert(left =~= right);
    assert(state.before(first + second, whole as int) == middle.before(second, m as int));
    assert(middle.after(second).pending =~= state.after(first + second).pending);
}

/// All samples of several deliveries, each with its capture timestamp.
pub open spec fn samples_of(run: Seq<(Seq<u32>, u64)>) -> Seq<u32>
    decreases run.len(),
{
    if run.len() == 0 {
        seq![]
    } else {
        samples_of(run.drop_last()) + run.last().0
    }
}

impl PacketizerView {
    /// A packetizer that has seen nothing.
    pub open spec fn initial(fec: bool, rate: SampleRate) -> PacketizerView {
        PacketizerView { pending: seq![], seq: 0, previous: None, fec, rate }
    }

    /// The state after several deliveries.
    pub open spec fn after_run(self, run: Seq<(Seq<u32>, u64)>) -> PacketizerView
        decreases run.len(),
    {
        if run.len() == 0 {
            self
        } else {
            self.after_run(run.drop_last()).after(run.last().0)
        }
    }

    /// All packets that several deliveries complete.
    pub open spec fn packets_of(self, run: Seq<(Seq<u32>, u64)>) -> Seq<(Header, Seq<u8>)>
        decreases run.len(),
    {
        if run.len() == 0 {
            seq![]
        } else {
            self.packets_of(run.drop_last()) + self.after_run(run.drop_last()).emitted(
                run.last().0,
                run.last().1,
            )
        }
    }
}

/// Several deliveries leave what their samples together leave, and complete the
/// same packets, up to their timestamps.
proof fn lemma_run(state: PacketizerView, run: Seq<(Seq<u32>, u64)>)
    requires
        state.valid(),
        state.seq + state.packets(samples_of(run)) <= u64::MAX,
    ensures
        state.after_run(run) == state.after(samples_of(run)),
        state.packets_of(run).map_values(|packet: (Header, Seq<u8>)| unstamped(packet))
            == state.emitted(samples_of(run), 0).map_values(
            |packet: (Header, Seq<u8>)| unstamped(packet),
        ),
    decreases run.len(),
{
    lemma_sizes();
    let strip = |packet: (Header, Seq<u8>)| unstamped(packet);
    if run.len() == 0 {
        assert(state.at_hand(seq![]) =~= state.pending);
        assert(state.after(seq![]) =~= state);
        assert(state.emitted(seq![], 0).map_values(strip) =~= state.packets_of(run).map_values(
            strip,
        ));
    } else {
        let rest = run.drop_last();
        let (more, pts) = run.last();
        let head = samples_of(rest);
        assert(state.at_hand(head).len() <= state.at_hand(head + more).len());
        lemma_run(state, rest);
        law_chunking_does_not_matter(state, head, more, 0, pts, 0);
        let middle = state.after(head);
        let early = state.packets_of(rest);
        let late = middle.emitted(more, pts);
        assert((early + late).map_values(strip) =~= early.map_values(strip) + late.map_values(
            strip,
        ));
        assert((state.emitted(head, 0) + late).map_values(strip) =~= state.emitted(
            head,
            0,
        ).map_values(strip) + late.map_values(strip));
    }
}

/// Block `k` of the samples of a stream.
pub open spec fn block_of(all: Seq<u32>, k: int) -> Seq<u8> {
    samples::sample_bytes(
        all.subrange(k * SAMPLES_PER_PACKET, k * SAMPLES_PER_PACKET + SAMPLES_PER_PACKET),
    )
}

/// What a new packetizer makes of any run of deliveries depends on their samples
/// alone, not on how they were cut: every 128 samples make a packet, numbered from
/// zero, that holds their bytes and, where redundancy is on and it is not the
/// first, those of the block before them.
pub proof fn law_every_block_becomes_a_packet(
    fec: bool,
    rate: SampleRate,
    run: Seq<(Seq<u32>, u64)>,
)
    requires
        samples_of(run).len() / SAMPLES_PER_PACKET as nat <= u64::MAX,
    ensures
        ({
            let all = samples_of(run);
            let packets = PacketizerView::initial(fec, rate).packets_of(run);
            &&& packets.len() == all.len() / SAMPLES_PER_PACKET as nat
            &&& forall|k: int|
                0 <= k < packets.len() ==> (#[trigger] packets[k]).0.kind == Kind::Audio
                    && packets[k].0.fragment_index == 0 && packets[k].0.fragment_count == 1
                    && packets[k].0.seq == k && packets[k].0.rate == Some(rate)
                    && packets[k].0.flags == (if fec && k > 0 {
                    flags::HAS_FEC
                } else {
                    0
                }) && packets[k].1 == if fec && k > 0 {
                    block_of(all, k) + block_of(all, k - 1)
                } else {
                    block_of(all, k)
                }
        }),
{
    lemma_sizes();
    let start = PacketizerView::initial(fec, rate);
    let all = samples_of(run);
    let packets = start.packets_of(run);
    let strip = |packet: (Header, Seq<u8>)| unstamped(packet);
    assert(start.at_hand(all) =~= all);
    lemma_run(start, run);
    let plain = start.emitted(all, 0);
    assert(packets.map_values(strip).len() == plain.map_values(strip).len());
    assert forall|k: int| 0 <= k < packets.len() implies unstamped(#[trigger] packets[k])
        == unstamped(start.packet(all, 0, k)) by {
        assert(packets.map_values(strip)[k] == plain.map_values(strip)[k]);
    }
}

/// Packets are stamped from the capture clock. The first that a delivery completes
/// is stamped with the delivery's own time, less what the samples held back from
/// before it last, or zero where the clock does not go back so far. Each further
/// one is stamped as much later as 64 frames last, in whole microseconds.
pub proof fn law_packets_are_stamped_from_the_capture_clock(
    state: PacketizerView,
    more: Seq<u32>,
    capture_pts_micros: u64,
    i: int,
)
    requires
        state.valid(),
        state.can_take(more.len(), capture_pts_micros),
        0 <= i < state.emitted(more, capture_pts_micros).len(),
    ensures
        ({
            let packets = state.emitted(more, capture_pts_micros);
            let hz = state.rate.frequency() as int;
            let held = state.pending.len() as int / 2;
            let first = packets[0].0.pts_micros as int;
            let ahead = capture_pts_micros - first;
            let step = 64_000_000int / hz;
            &&& packets[i].0.pts_micros == first + i * step
            &&& held == 0 ==> first == capture_pts_micros
            &&& first > 0 ==> ahead * hz <= held * 1_000_000 < (ahead + 1) * hz
            &&& first == 0 ==> capture_pts_micros * hz <= held * 1_000_000
        }),
{
    lemma_sizes();
    let packets = state.emitted(more, capture_pts_micros);
    let hz = state.rate.frequency() as int;
    let n = state.packets(more) as int;
    let step = packet_micros(state.rate) as int;
    let total = (state.pending.len() as int / 2) * 1_000_000;
    let behind = total / hz;
    assert(behind * hz <= total < (behind + 1) * hz) by (nonlinear_arith)
        requires
            behind == total / hz,
            hz > 0,
    ;
    assert(0 * step == 0) by (nonlinear_arith);
    assert(0 <= i * step <= n * step) by (nonlinear_arith)
        requires
            0 <= i <= n,
            step >= 0,
    ;
    assert(packets[0] == state.packet(more, capture_pts_micros, 0));
    assert(packets[i] == state.packet(more, capture_pts_micros, i));
    let pts = capture_pts_micros as int;
    if behind >= pts {
        assert(pts * hz <= total) by (nonlinear_arith)
            requires
                pts <= behind,
                behind * hz <= total,
                hz > 0,
        ;
    }
}

/// A number of frames lasts as many whole microseconds as fit.
pub proof fn law_lengths_are_rounded_down(frames: nat, rate: SampleRate)
    ensures
        micros(frames, rate) * rate.frequency() <= frames * 1_000_000 < (micros(frames, rate) + 1)
            * rate.frequency(),
{
    let hz = rate.frequency() as int;
    let total = frames as int * 1_000_000;
    let q = total / hz;
    assert(q * hz <= total < (q + 1) * hz) by (nonlinear_arith)
        requires
            q == total / hz,
            hz > 0,
    ;
}

/// Nothing that comes in is lost: what is held back is the end of what came in,
/// behind the last whole packet, and is always less than a packet.
pub proof fn law_what_is_left_is_held_back(state: PacketizerView, more: Seq<u32>)
    requires
        state.valid(),
    ensures
        ({
            let after = state.after(more);
            let n = state.emitted(more, 0).len();
            let all = state.pending + more;
            &&& after.pending.len() < 128
            &&& n * 128 + after.pending.len() == all.len()
            &&& after.pending == all.subrange((n * 128) as int, all.len() as int)
            &&& state.seq + n <= u64::MAX ==> after.seq == state.seq + n
            &&& after.fec == state.fec
            &&& after.rate == state.rate
        }),
{
    lemma_sizes();
    let all = state.pending + more;
    let n = state.packets(more);
    assert(state.at_hand(more).skip((n * 128) as int) =~= all.subrange(
        (n * 128) as int,
        all.len() as int,
    ));
}

} // verus!
