//! What is handed over for playback, and what the buffer learns from a packet
//! besides its audio.

use vstd::prelude::*;

use crate::jitter;
use crate::jitter::{Gate, JitterView};
use crate::packet::{flags, Header};

verus! {

/// Whether playback may go on: it is going on already, or as much is buffered as
/// it is to start with.
pub open spec fn is_open(state: JitterView) -> bool {
    state.started || state.pending.len() >= state.target_samples
}

/// Playback waits until as much is buffered as it is to start with, and goes on
/// from there. Seeing whether it may go on changes nothing else.
pub proof fn law_playback_opens_at_the_target(state: JitterView)
    ensures
        state.gate() == Gate::Waiting <==> !is_open(state),
        state.gate() == Gate::Running <==> state.started,
        state.gated().started == is_open(state),
        (JitterView { started: state.started, ..state.gated() }) == state,
{
}

/// What is buffered is played, and only what is not there is silence: once
/// playback is open, the first samples handed over are the next ones buffered, in
/// order and bit for bit, as far as they reach, and the rest are zero. While it is
/// not open all are zero, and nothing is used up.
pub proof fn law_what_is_buffered_is_played(state: JitterView, wanted: nat, i: int)
    requires
        0 <= i < wanted,
    ensures
        ({
            let (after, out) = state.pulled(wanted);
            &&& out.len() == wanted
            &&& is_open(state) && i < state.pending.len() ==> out[i] == state.pending[i]
            &&& !is_open(state) || i >= state.pending.len() ==> out[i].bits == 0 && out[i].fade == 0
        }),
{
}

/// What playback leaves. Where enough is buffered, exactly the samples handed over
/// are gone, and the clock has moved on by what they last at the sender's rate.
/// Where it is not, everything is gone, that is counted once, and playback waits
/// again for the target and for a packet to set the clock. While playback is not
/// open nothing changes.
pub proof fn law_playback_uses_up_what_it_plays(state: JitterView, wanted: nat)
    requires
        state.stats.underruns < u64::MAX,
        state.can_pull(wanted / 2),
    ensures
        ({
            let after = state.pulled(wanted).0;
            let enough = wanted <= state.pending.len();
            &&& !is_open(state) ==> after == state
            &&& is_open(state) && enough ==> {
                &&& after.started
                &&& after.pending.len() == state.pending.len() - wanted
                &&& forall|i: int|
                    0 <= i < after.pending.len() ==> #[trigger] after.pending[i]
                        == state.pending[wanted + i]
                &&& after.stats.underruns == state.stats.underruns
                &&& state.read_pts_micros is Some && state.rate is Some
                    ==> after.read_pts_micros is Some && after.read_pts_micros->0
                    == state.read_pts_micros->0 + (wanted / 2) * 1_000_000
                    / state.rate->0.frequency() as nat
                &&& state.read_pts_micros is None || state.rate is None ==> after.read_pts_micros
                    == state.read_pts_micros
            }
            &&& is_open(state) && !enough ==> {
                &&& !after.started
                &&& after.pending.len() == 0
                &&& after.stats.underruns == state.stats.underruns + 1
                &&& after.read_pts_micros is None
            }
            &&& is_open(state) ==> after.stats.drift_ppm == 0
            &&& after.next_seq == state.next_seq
            &&& after.staged == state.staged
            &&& after.rate == state.rate
            &&& after.target_ms == state.target_ms
            &&& after.target_samples == state.target_samples
            &&& after.last == state.last
            &&& after.stats.late == state.stats.late
            &&& after.stats.recovered == state.stats.recovered
            &&& after.stats.concealed == state.stats.concealed
        }),
{
}

proof fn lemma_reached(state: JitterView, positions: Seq<usize>)
    ensures
        state.reached(positions) <= positions.len(),
        forall|i: int|
            0 <= i < state.reached(positions) ==> 2 * #[trigger] positions[i] + 4
                <= state.pending.len(),
        state.reached(positions) < positions.len() ==> 2 * positions[state.reached(
            positions,
        ) as int] + 4 > state.pending.len(),
    decreases positions.len(),
{
    if positions.len() > 0 && state.reaches(positions.first() as int) {
        let rest = positions.drop_first();
        lemma_reached(state, rest);
        assert forall|i: int| 0 <= i < state.reached(positions) implies 2 * #[trigger] positions[i]
            + 4 <= state.pending.len() by {
            if i > 0 {
                assert(positions[i] == rest[i - 1]);
            }
        }
        if state.reached(positions) < positions.len() {
            assert(positions[state.reached(positions) as int] == rest[state.reached(
                rest,
            ) as int]);
        }
    }
}

/// Played at an adjusted speed, each frame is read between the frame at its
/// position and the one after it, left from left and right from right, as far as
/// both are buffered. Where one is not, nothing is read from there on: everything
/// buffered is gone, that is counted once, and playback waits again. Otherwise
/// just the frames that were read past are gone, and the clock has moved on by
/// what they last.
pub proof fn law_frames_are_read_between_their_neighbours(
    state: JitterView,
    positions: Seq<usize>,
    advance: nat,
    drift_ppm: i32,
)
    requires
        state.can_pull(advance),
    ensures
        ({
            let (after, taps) = state.resampled(positions, advance, drift_ppm);
            let len = state.pending.len();
            let n = taps.len() as int;
            &&& n <= positions.len()
            &&& forall|i: int|
                #![trigger taps[i]]
                0 <= i < n ==> {
                    let at = 2 * positions[i];
                    &&& at + 4 <= len
                    &&& taps[i].left == (state.pending[at], state.pending[at + 2])
                    &&& taps[i].right == (state.pending[at + 1], state.pending[at + 3])
                }
            &&& n < positions.len() ==> {
                &&& 2 * positions[n] + 4 > len
                &&& after.pending.len() == 0
                &&& !after.started
                &&& after.read_pts_micros is None
                &&& after.stats.underruns == state.stats.underruns + 1
            }
            &&& n == positions.len() ==> {
                let gone = if 2 * advance <= len {
                    2 * advance as int
                } else {
                    len as int
                };
                &&& after.pending.len() == len - gone
                &&& forall|i: int|
                    0 <= i < after.pending.len() ==> #[trigger] after.pending[i]
                        == state.pending[gone + i]
                &&& after.started == state.started
                &&& after.stats.underruns == state.stats.underruns
                &&& state.read_pts_micros is Some && state.rate is Some
                    ==> after.read_pts_micros is Some && after.read_pts_micros->0
                    == state.read_pts_micros->0 + advance * 1_000_000
                    / state.rate->0.frequency() as nat
                &&& state.read_pts_micros is None || state.rate is None ==> after.read_pts_micros
                    == state.read_pts_micros
            }
            &&& after.stats.drift_ppm == drift_ppm
            &&& after.next_seq == state.next_seq
            &&& after.staged == state.staged
            &&& after.rate == state.rate
            &&& after.target_ms == state.target_ms
            &&& after.target_samples == state.target_samples
            &&& after.last == state.last
            &&& after.stats.late == state.stats.late
            &&& after.stats.recovered == state.stats.recovered
            &&& after.stats.concealed == state.stats.concealed
        }),
{
    let ready = state.corrected(drift_ppm);
    lemma_reached(ready, positions);
    let (after, taps) = state.resampled(positions, advance, drift_ppm);
    assert forall|i: int|
        #![trigger taps[i]]
        0 <= i < taps.len() implies 2 * positions[i] + 4 <= state.pending.len() && taps[i].left == (
    state.pending[2 * positions[i]], state.pending[2 * positions[i] + 2]) && taps[i].right == (
    state.pending[2 * positions[i] + 1], state.pending[2 * positions[i] + 3]) by {
        assert(taps[i] == ready.taps_at(positions[i] as int));
    }
}

/// Whether a payload divides into whole frames, twice over where it carries a copy.
pub open spec fn is_whole(header: Header, payload: Seq<u8>) -> bool {
    payload.len() > 0 && if header.flags & flags::HAS_FEC == 0 {
        payload.len() % 8 == 0
    } else {
        payload.len() % 16 == 0
    }
}

/// A payload is a block, or a block and a copy as long as it behind it, and is of
/// use if and only if it divides into whole frames.
pub proof fn law_a_payload_is_a_block_and_its_copy(header: Header, payload: Seq<u8>)
    ensures
        jitter::halves(header, payload) is Some <==> is_whole(header, payload),
        jitter::halves(header, payload) matches Some((block, copy)) ==> {
            &&& copy is Some <==> header.flags & flags::HAS_FEC != 0
            &&& copy is None ==> block == payload
            &&& copy is Some ==> block + copy->0 == payload && block.len() == copy->0.len()
        },
{
    let half = (payload.len() / 2) as int;
    lemma_halves_are_whole(payload.len());
    assert(header.flagged(flags::HAS_FEC) == (header.flags & flags::HAS_FEC != 0));
    if is_whole(header, payload) && header.flagged(flags::HAS_FEC) {
        assert(payload.take(half) + payload.skip(half) =~= payload);
    }
}

proof fn lemma_halves_are_whole(len: nat)
    ensures
        len % 16 == 0 <==> len % 8 == 0 && (len / 2) % 8 == 0,
        len % 16 == 0 ==> len == 2 * (len / 2),
{
    let (q, r) = (len as int / 16, len as int % 16);
    let half = 8 * q + r / 2;
    assert(len == 16 * q + r && 0 <= r < 16);
    assert(len / 2 == half);
    assert(half / 8 == q && half % 8 == r / 2);
    assert(len % 8 == if r < 8 {
        r
    } else {
        r - 8
    });
}

/// Every packet of whole frames that states a rate, late or not, sets the rate,
/// and a new rate sets what playback is to start with: as many frames, of two
/// samples each, as fit the target time at that rate. A packet that states none
/// changes neither, and a malformed one changes nothing at all.
pub proof fn law_the_stream_sets_the_rate_and_the_target(
    state: JitterView,
    header: Header,
    payload: Seq<u8>,
)
    ensures
        ({
            let after = state.pushed(header, payload);
            let frames = after.target_samples as int / 2;
            &&& !is_whole(header, payload) ==> after == state
            &&& after.target_ms == state.target_ms
            &&& after.started == state.started
            &&& is_whole(header, payload) && header.rate is Some ==> {
                let hz = header.rate->0.frequency() as int;
                &&& after.rate == header.rate
                &&& state.rate == header.rate ==> after.target_samples == state.target_samples
                &&& state.rate != header.rate ==> {
                    &&& after.target_samples % 2 == 0
                    &&& frames * 1000 <= hz * state.target_ms
                    &&& hz * state.target_ms < (frames + 1) * 1000
                }
            }
            &&& header.rate is None ==> after.rate == state.rate && after.target_samples
                == state.target_samples
        }),
{
    law_a_payload_is_a_block_and_its_copy(header, payload);
    if is_whole(header, payload) {
        let (block, copy) = jitter::halves(header, payload)->0;
        let due = state.met(header);
        if header.seq >= due.next_seq->0 {
            let staging = due.stamped(header, block.len() / 8).staging(header.seq, block, copy);
            jitter::gaps::lemma_drained_leaves_alone(staging, block.len() / 4);
        }
        if header.rate is Some {
            let hz = header.rate->0.frequency() as int;
            let product = hz * state.target_ms;
            assert(0 <= product <= 96_000 * 0xffff_ffff) by (nonlinear_arith)
                requires
                    product == hz * state.target_ms,
                    0 <= hz <= 96_000,
                    0 <= state.target_ms <= 0xffff_ffff,
            ;
        }
    }
}

/// A packet whose turn has passed is counted as late and is otherwise without
/// effect on what is played: nothing becomes due, nothing is held, recovered or
/// concealed, and the clock stays.
pub proof fn law_a_late_packet_is_only_counted(state: JitterView, header: Header, payload: Seq<u8>)
    requires
        is_whole(header, payload),
        state.next_seq is Some,
        header.seq < state.next_seq->0,
        state.stats.late < u64::MAX,
    ensures
        ({
            let after = state.pushed(header, payload);
            &&& after.stats.late == state.stats.late + 1
            &&& after.stats.recovered == state.stats.recovered
            &&& after.stats.concealed == state.stats.concealed
            &&& after.stats.underruns == state.stats.underruns
            &&& after.stats.drift_ppm == state.stats.drift_ppm
            &&& after.pending == state.pending
            &&& after.staged == state.staged
            &&& after.next_seq == state.next_seq
            &&& after.last == state.last
            &&& after.read_pts_micros == state.read_pts_micros
        }),
{
    law_a_payload_is_a_block_and_its_copy(header, payload);
}

/// A packet in time that states a rate sets the clock, in microseconds, to its own
/// timestamp less what plays before it: what is due, and as many frames as it has
/// itself for each number between the next one due and its own. A packet that
/// states no rate leaves the clock.
pub proof fn law_the_clock_is_set_by_packets_in_time(
    state: JitterView,
    header: Header,
    payload: Seq<u8>,
)
    requires
        is_whole(header, payload),
        header.seq >= jitter::gaps::turn_before(state, header),
    ensures
        ({
            let after = state.pushed(header, payload);
            let size = if header.flags & flags::HAS_FEC == 0 {
                payload.len() as int
            } else {
                payload.len() as int / 2
            };
            let between = header.seq - jitter::gaps::turn_before(state, header);
            let before = state.pending.len() as int / 2 + between * (size / 8);
            &&& header.rate is None ==> after.read_pts_micros == state.read_pts_micros
            &&& header.rate matches Some(rate) ==> after.read_pts_micros is Some && {
                let behind = header.pts_micros - after.read_pts_micros->0;
                let hz = rate.frequency() as int;
                &&& after.read_pts_micros->0 > 0 ==> behind * hz <= before * 1_000_000
                    < (behind + 1) * hz
                &&& after.read_pts_micros->0 == 0 ==> header.pts_micros * hz <= before * 1_000_000
            }
        }),
{
    law_a_payload_is_a_block_and_its_copy(header, payload);
    let (block, copy) = jitter::halves(header, payload)->0;
    let due = state.met(header);
    let stamped = due.stamped(header, block.len() / 8);
    let staging = stamped.staging(header.seq, block, copy);
    jitter::gaps::lemma_drained_leaves_alone(staging, block.len() / 4);
    if header.rate is Some {
        let hz = header.rate->0.frequency() as int;
        let frames = (block.len() / 8) as int;
        let between = header.seq - jitter::gaps::turn_before(state, header);
        assert(between * frames >= 0) by (nonlinear_arith)
            requires
                between >= 0,
                frames >= 0,
        ;
        let before = due.frames_before(header.seq, block.len() / 8) as int;
        assert(before == state.pending.len() as int / 2 + between * frames);
        let total = before * 1_000_000;
        let behind = total / hz;
        assert(behind * hz <= total < (behind + 1) * hz) by (nonlinear_arith)
            requires
                behind == total / hz,
                hz > 0,
        ;
        let pts = header.pts_micros as int;
        if behind >= pts {
            assert(pts * hz <= total) by (nonlinear_arith)
                requires
                    pts <= behind,
                    behind * hz <= total,
                    hz > 0,
            ;
        }
    }
}

/// A new buffer holds nothing and has counted nothing, and playback does not open
/// before a packet has said at what rate.
pub proof fn law_a_new_buffer_waits_for_the_stream(target_ms: u32, seq: u64)
    ensures
        ({
            let state = JitterView::initial(target_ms);
            &&& state.target_ms == target_ms
            &&& state.pending.len() == 0
            &&& !state.staged.contains_key(seq)
            &&& !is_open(state)
            &&& state.next_seq is None
            &&& state.rate is None
            &&& state.read_pts_micros is None
            &&& state.last == seq![0u32, 0u32]
            &&& state.stats.late == 0 && state.stats.recovered == 0 && state.stats.concealed == 0
                && state.stats.underruns == 0 && state.stats.drift_ppm == 0
        }),
{
}

} // verus!
