//! What becomes due for playback, turn by turn: the blocks that are held, and
//! what is played where one is missing.

use vstd::prelude::*;

use crate::jitter;
use crate::jitter::JitterView;
use crate::packet::{flags, Header};
use crate::samples;

verus! {

/// By how many parts in 64 frame `frame` of a gap is faded.
pub open spec fn faded(frame: int) -> int {
    if frame < 64 {
        frame
    } else {
        64
    }
}

/// Whether sample `k` of the turn of packet `seq` is played as it should be, where
/// playback was at `before`, each packet lasts `frames` frames and `held` holds
/// those that arrived. The block of a packet that arrived is played as it came.
/// For one that is missing, each channel holds the last sample of that same
/// channel, fading out.
pub open spec fn plays_well(
    before: JitterView,
    held: Map<u64, Seq<u8>>,
    after: JitterView,
    frames: nat,
    seq: u64,
    k: int,
) -> bool {
    let start = before.pending.len() + (seq - before.next_seq->0) * (2 * frames);
    let sample = after.pending[start + k];
    if held.contains_key(seq) {
        sample.bits == samples::samples_in(held[seq])[k] && sample.fade == 0
    } else {
        &&& sample.fade == faded(k / 2)
        &&& sample.bits == if start == before.pending.len() {
            before.last[k % 2]
        } else {
            after.pending[start - 2 + k % 2].bits
        }
    }
}

/// Whether the last frame that is due is the one that is remembered.
pub open spec fn remembers_the_last_frame(state: JitterView) -> bool {
    state.pending.len() >= 2 ==> {
        &&& state.pending[state.pending.len() - 2].bits == state.last[0]
        &&& state.pending[state.pending.len() - 1].bits == state.last[1]
    }
}

/// How many of the numbers from `from` up to `to` nothing is held for.
pub open spec fn missing_between(held: Map<u64, Seq<u8>>, from: int, to: int) -> nat
    decreases to - from,
{
    if to <= from {
        0
    } else {
        missing_between(held, from + 1, to) + if held.contains_key(from as u64) {
            0nat
        } else {
            1
        }
    }
}

/// How many numbers beyond `seq` something is held for.
pub open spec fn held_beyond(held: Map<u64, Seq<u8>>, seq: u64) -> nat {
    held.dom().filter(|s: u64| s > seq).len()
}

/// What draining leaves, and what it makes due.
spec fn drains_well(before: JitterView, after: JitterView, frames: nat) -> bool {
    let held = before.staged;
    let (from, to) = (before.next_seq->0, after.next_seq->0);
    &&& after.next_seq is Some
    &&& from <= to
    &&& after.pending.len() == before.pending.len() + (to - from) * (2 * frames)
    &&& after.pending.take(before.pending.len() as int) == before.pending
    &&& forall|seq: u64, k: int|
        from <= seq < to && 0 <= k < 2 * frames ==> #[trigger] plays_well(
            before,
            held,
            after,
            frames,
            seq,
            k,
        )
    &&& after.staged == held.restrict(Set::new(|s: u64| s >= to))
    &&& after.stats.concealed == before.stats.concealed + missing_between(
        held,
        from as int,
        to as int,
    )
    &&& to > from && frames > 0 ==> remembers_the_last_frame(after)
    &&& to == from ==> after.last == before.last
    &&& forall|seq: u64|
        from <= seq < to && !held.contains_key(seq) ==> #[trigger] held_beyond(held, seq)
            > 8
    &&& to < u64::MAX ==> !held.contains_key(to) && after.staged.len() <= 8
}

/// A first turn and what follows it are turns like any other.
proof fn lemma_first_turn(before: JitterView, step: JitterView, after: JitterView, frames: nat)
    requires
        before.sound(),
        before.next_seq is Some,
        before.next_seq->0 < u64::MAX,
        step.next_seq == Some((before.next_seq->0 + 1) as u64),
        step.staged == before.staged.remove(before.next_seq->0),
        step.pending.len() == before.pending.len() + 2 * frames,
        step.pending.take(before.pending.len() as int) == before.pending,
        frames > 0,
        remembers_the_last_frame(step),
        forall|k: int|
            0 <= k < 2 * frames ==> #[trigger] plays_well(
                before,
                before.staged,
                step,
                frames,
                before.next_seq->0,
                k,
            ),
        !before.staged.contains_key(before.next_seq->0) ==> before.staged.len() > 8,
        step.stats.concealed == before.stats.concealed + if before.staged.contains_key(
            before.next_seq->0,
        ) {
            0int
        } else {
            1
        },
        drains_well(step, after, frames),
    ensures
        drains_well(before, after, frames),
{
    let held = before.staged;
    let (from, to) = (before.next_seq->0, after.next_seq->0);
    let len = before.pending.len() as int;
    let size = (2 * frames) as int;
    assert((to - from) * size == size + (to - (from + 1)) * size) by (nonlinear_arith);
    assert(0 <= (to - (from + 1)) * size) by (nonlinear_arith)
        requires
            to >= from + 1,
            size >= 0,
    ;
    assert(after.pending.take(len) =~= before.pending) by {
        assert forall|i: int| 0 <= i < len implies after.pending[i] == before.pending[i] by {
            assert(after.pending.take(step.pending.len() as int)[i] == step.pending[i]);
            assert(step.pending.take(len)[i] == before.pending[i]);
        }
    }
    assert forall|seq: u64, k: int| from <= seq < to && 0 <= k < size implies #[trigger] plays_well(
        before,
        held,
        after,
        frames,
        seq,
        k,
    ) by {
        if seq == from {
            assert((seq - from) * size == 0) by (nonlinear_arith)
                requires
                    seq == from,
            ;
            assert(plays_well(before, held, step, frames, from, k));
            assert(after.pending.take(step.pending.len() as int)[len + k] == step.pending[len + k]);
        } else {
            assert(plays_well(step, step.staged, after, frames, seq, k));
            assert((seq - from) * size == size + (seq - (from + 1)) * size) by (nonlinear_arith);
            assert(0 <= (seq - (from + 1)) * size) by (nonlinear_arith)
                requires
                    seq >= from + 1,
                    size >= 0,
            ;
            assert(size > 0);
            assert(step.staged.contains_key(seq) == held.contains_key(seq));
            if seq == from + 1 {
                assert((seq - (from + 1)) * size == 0) by (nonlinear_arith)
                    requires
                        seq == from + 1,
                ;
                let end = step.pending.len() as int;
                assert(after.pending.take(end)[end - 2] == step.pending[end - 2]);
                assert(after.pending.take(end)[end - 1] == step.pending[end - 1]);
            } else {
                assert((seq - (from + 1)) * size > 0) by (nonlinear_arith)
                    requires
                        seq > from + 1,
                        size > 0,
                ;
            }
        }
    }
    assert(after.staged =~= held.restrict(Set::new(|s: u64| s >= to)));
    assert(missing_between(step.staged, from + 1, to as int) == missing_between(
        held,
        from + 1,
        to as int,
    )) by {
        lemma_missing_without(held, from, from + 1, to as int);
    }
    assert forall|seq: u64| from <= seq < to && !held.contains_key(seq) implies
        #[trigger] held_beyond(held, seq) > 8 by {
        if seq == from {
            assert(held.dom().filter(|s: u64| s > seq) =~= held.dom()) by {
                assert forall|s: u64| held.dom().contains(s) implies s > seq by {
                    assert(held.contains_key(s));
                }
            }
        } else {
            assert(!step.staged.contains_key(seq));
            assert(held_beyond(step.staged, seq) > 8);
            assert(step.staged.dom().filter(|s: u64| s > seq) =~= held.dom().filter(
                |s: u64| s > seq,
            ));
        }
    }
    if to == from + 1 {
        assert((to - (from + 1)) * size == 0) by (nonlinear_arith)
            requires
                to == from + 1,
        ;
        assert(after.pending.len() == step.pending.len());
        assert(after.pending =~= step.pending) by {
            assert(after.pending.take(step.pending.len() as int) =~= after.pending);
        }
    }
    if to < u64::MAX {
        assert(!step.staged.contains_key(to));
    }
}

proof fn lemma_missing_without(held: Map<u64, Seq<u8>>, gone: u64, from: int, to: int)
    requires
        gone < from,
        to <= u64::MAX,
    ensures
        missing_between(held.remove(gone), from, to) == missing_between(held, from, to),
    decreases to - from,
{
    if from < to {
        lemma_missing_without(held, gone, from + 1, to);
    }
}

/// Draining plays turn after turn, as long as the next block is held or more than
/// eight wait for it.
proof fn lemma_drains_well(state: JitterView, frames: nat)
    requires
        state.sound(),
        state.next_seq is Some,
        frames > 0,
        jitter::is_uniform(state, frames),
    ensures
        drains_well(state, state.drained(2 * frames), frames),
    decreases u64::MAX - state.next_seq->0,
{
    let next = state.next_seq->0;
    let after = state.drained(2 * frames);
    let len = state.pending.len() as int;
    assert((next - next) * (2 * frames) == 0) by (nonlinear_arith);
    if next < u64::MAX && state.staged.contains_key(next) {
        let block = state.staged[next];
        let step = state.appended(block);
        let bits = samples::samples_in(block);
        assert(bits.len() == 2 * frames);
        assert(step.sound());
        assert(forall|seq: u64| #[trigger]
            step.staged.contains_key(seq) ==> state.staged.contains_key(seq));
        assert(step.pending.take(len) =~= state.pending);
        assert forall|k: int| 0 <= k < 2 * frames implies #[trigger] plays_well(
            state,
            state.staged,
            step,
            frames,
            next,
            k,
        ) by {
            assert(step.pending[len + k] == jitter::exact_samples(block)[k]);
        }
        lemma_drains_well(step, frames);
        lemma_first_turn(state, step, after, frames);
    } else if next < u64::MAX && state.staged.len() > 8 {
        let some = state.staged.dom().choose();
        assert(state.staged.contains_key(some));
        let step = state.concealed(2 * frames);
        assert(step.sound());
        assert(step.pending.take(len) =~= state.pending);
        assert(step.staged =~= state.staged.remove(next));
        assert forall|k: int| 0 <= k < 2 * frames implies #[trigger] plays_well(
            state,
            state.staged,
            step,
            frames,
            next,
            k,
        ) by {
            assert(step.pending[len + k] == jitter::concealment(state.last, 2 * frames)[k]);
        }
        lemma_drains_well(step, frames);
        lemma_first_turn(state, step, after, frames);
    } else {
        assert(after == state);
        assert(after.pending.take(len) =~= state.pending);
        assert forall|s: u64| state.staged.contains_key(s) implies s >= next by {}
        assert(state.staged =~= state.staged.restrict(Set::new(|s: u64| s >= next)));
    }
}

/// What is held once a packet has arrived: its block, and the copy of the block
/// before it where that one is due and has not shown up.
pub open spec fn held_with(state: JitterView, from: u64, header: Header, payload: Seq<u8>) -> Map<
    u64,
    Seq<u8>,
> {
    let half = (payload.len() / 2) as int;
    let previous = (header.seq - 1) as u64;
    if header.flags & flags::HAS_FEC == 0 {
        state.staged.insert(header.seq, payload)
    } else if header.seq > from && !state.staged.contains_key(previous) {
        state.staged.insert(header.seq, payload.take(half)).insert(previous, payload.skip(half))
    } else {
        state.staged.insert(header.seq, payload.take(half))
    }
}

/// Where playback goes on with a packet that may be the first.
pub open spec fn turn_before(state: JitterView, header: Header) -> u64 {
    match state.next_seq {
        Some(next) => next,
        None => header.seq,
    }
}

/// A packet that is in time is held, with the copy of the one before it where that
/// one is due and has not shown up, which counts as recovered. Then every turn
/// that can be played is, one after the other and none left out: a block that
/// arrived as it came, bit for bit; a missing one, given up once more than eight
/// wait behind it and counted as concealed, as the last sample of each channel,
/// held in that channel and faded out. Playback stops at the first number that is
/// neither held nor given up.
pub proof fn law_every_turn_plays_its_block_or_holds_the_last_frame(
    state: JitterView,
    frames: nat,
    header: Header,
    payload: Seq<u8>,
)
    requires
        state.valid(),
        jitter::is_uniform(state, frames),
        frames > 0,
        header.seq < u64::MAX,
        header.seq >= turn_before(state, header),
        payload.len() == if header.flags & flags::HAS_FEC == 0 {
            8 * frames
        } else {
            16 * frames
        },
    ensures
        ({
            let after = state.pushed(header, payload);
            let from = turn_before(state, header);
            let to = after.next_seq->0;
            let begun = JitterView { next_seq: Some(from), ..state };
            let held = held_with(state, from, header, payload);
            &&& after.next_seq is Some
            &&& from <= to
            &&& after.pending.len() == state.pending.len() + (to - from) * (2 * frames)
            &&& after.pending.take(state.pending.len() as int) == state.pending
            &&& forall|seq: u64, k: int|
                from <= seq < to && 0 <= k < 2 * frames ==> #[trigger] plays_well(
                    begun,
                    held,
                    after,
                    frames,
                    seq,
                    k,
                )
            &&& after.staged == held.restrict(Set::new(|s: u64| s >= to))
            &&& forall|seq: u64|
                from <= seq < to && !held.contains_key(seq) ==> #[trigger] held_beyond(held, seq)
                    > 8
            &&& to < u64::MAX ==> !held.contains_key(to) && after.staged.len() <= 8
            &&& after.stats.concealed == state.stats.concealed + missing_between(
                held,
                from as int,
                to as int,
            )
            &&& after.stats.recovered == state.stats.recovered + if header.flags & flags::HAS_FEC
                != 0 && header.seq > from && !state.staged.contains_key((header.seq - 1) as u64) {
                1int
            } else {
                0
            }
            &&& after.stats.late == state.stats.late
            &&& after.stats.underruns == state.stats.underruns
            &&& after.stats.drift_ppm == state.stats.drift_ppm
            &&& after.started == state.started
            &&& to > from ==> remembers_the_last_frame(after)
            &&& to == from ==> after.last == state.last
        }),
{
    let from = turn_before(state, header);
    let half = (payload.len() / 2) as int;
    let (block, copy) = jitter::halves(header, payload)->0;
    assert(jitter::halves(header, payload) is Some);
    assert(block.len() == 8 * frames);
    let due = state.met(header).stamped(header, block.len() / 8);
    let staging = due.staging(header.seq, block, copy);
    jitter::lemma_staging_is_sound(due, header.seq, block, copy);
    assert(staging.staged =~= held_with(state, from, header, payload));
    assert(jitter::is_uniform(staging, frames));
    lemma_drains_well(staging, frames);
    lemma_drained_leaves_alone(staging, 2 * frames);
    jitter::lemma_seqs_bounded(staging.staged.dom(), from);
    let after = state.pushed(header, payload);
    assert(after == staging.drained(2 * frames));
    let begun = JitterView { next_seq: Some(from), ..state };
    let held = held_with(state, from, header, payload);
    assert forall|seq: u64, k: int|
        from <= seq < after.next_seq->0 && 0 <= k < 2 * frames implies #[trigger] plays_well(
        begun,
        held,
        after,
        frames,
        seq,
        k,
    ) by {
        assert(plays_well(staging, staging.staged, after, frames, seq, k));
    }
}

/// Draining touches neither the clock nor what else is counted.
pub(super) proof fn lemma_drained_leaves_alone(state: JitterView, count: nat)
    ensures
        ({
            let after = state.drained(count);
            &&& after.started == state.started
            &&& after.rate == state.rate
            &&& after.target_ms == state.target_ms
            &&& after.target_samples == state.target_samples
            &&& after.read_pts_micros == state.read_pts_micros
            &&& after.stats.late == state.stats.late
            &&& after.stats.recovered == state.stats.recovered
            &&& after.stats.underruns == state.stats.underruns
            &&& after.stats.drift_ppm == state.stats.drift_ppm
        }),
    decreases u64::MAX - state.next_seq->0,
{
    if state.next_seq is None || state.next_seq->0 == u64::MAX {
    } else if state.staged.contains_key(state.next_seq->0) {
        lemma_drained_leaves_alone(state.appended(state.staged[state.next_seq->0]), count);
    } else if state.staged.len() > jitter::REORDER_WINDOW {
        lemma_drained_leaves_alone(state.concealed(count), count);
    }
}

/// A gap is bridged with the last frame before it: every frame played in its place
/// has in each channel the bits of that channel of the last frame due before it.
/// The first of them is not faded at all, and each further one by one part in 64
/// more, until it is silent.
pub proof fn law_a_gap_holds_the_last_frame_in_its_own_channels(
    state: JitterView,
    frames: nat,
    header: Header,
    payload: Seq<u8>,
    frame: int,
    channel: int,
)
    requires
        state.valid(),
        jitter::is_uniform(state, frames),
        remembers_the_last_frame(state),
        header.seq < u64::MAX,
        state.pending.len() >= 2,
        state.next_seq is Some,
        header.seq > state.next_seq->0,
        payload.len() == if header.flags & flags::HAS_FEC == 0 {
            8 * frames
        } else {
            16 * frames
        },
        !held_with(state, state.next_seq->0, header, payload).contains_key(state.next_seq->0),
        held_with(state, state.next_seq->0, header, payload).len() > 8,
        0 <= frame < frames,
        channel == 0 || channel == 1,
    ensures
        ({
            let after = state.pushed(header, payload);
            let end = state.pending.len() as int;
            let sample = after.pending[end + 2 * frame + channel];
            &&& after.pending.len() >= end + 2 * frames
            &&& sample.bits == state.pending[end - 2 + channel].bits
            &&& sample.fade == faded(frame)
            &&& after.stats.concealed > state.stats.concealed
        }),
{
    law_every_turn_plays_its_block_or_holds_the_last_frame(state, frames, header, payload);
    let from = state.next_seq->0;
    let after = state.pushed(header, payload);
    let to = after.next_seq->0;
    let held = held_with(state, from, header, payload);
    let begun = JitterView { next_seq: Some(from), ..state };
    if to == from {
        assert(held.restrict(Set::new(|s: u64| s >= to)) =~= held) by {
            assert forall|s: u64| held.contains_key(s) implies s >= to by {
                if state.staged.contains_key(s) {}
            }
        }
    }
    assert(to > from);
    assert((to - from) * (2 * frames) >= 2 * frames) by (nonlinear_arith)
        requires
            to - from >= 1,
    ;
    assert((from - from) * (2 * frames) == 0) by (nonlinear_arith);
    assert(plays_well(begun, held, after, frames, from, 2 * frame + channel));
    assert(missing_between(held, from as int, to as int) >= 1);
}

/// The last frame that is due is always remembered: when a packet arrives, and
/// when audio is played.
pub proof fn law_the_last_frame_is_remembered(
    state: JitterView,
    frames: nat,
    header: Header,
    payload: Seq<u8>,
    wanted: nat,
    positions: Seq<usize>,
    advance: nat,
    drift_ppm: i32,
)
    requires
        state.valid(),
        jitter::is_uniform(state, frames),
        remembers_the_last_frame(state),
        frames > 0,
        header.seq < u64::MAX,
        payload.len() == if header.flags & flags::HAS_FEC == 0 {
            8 * frames
        } else {
            16 * frames
        },
    ensures
        remembers_the_last_frame(state.pushed(header, payload)),
        remembers_the_last_frame(state.pulled(wanted).0),
        state.pulled(wanted).0.last == state.last,
        remembers_the_last_frame(state.resampled(positions, advance, drift_ppm).0),
        state.resampled(positions, advance, drift_ppm).0.last == state.last,
{
    if header.seq >= turn_before(state, header) {
        law_every_turn_plays_its_block_or_holds_the_last_frame(state, frames, header, payload);
        let after = state.pushed(header, payload);
        let from = turn_before(state, header);
        if after.next_seq->0 == from {
            assert((from - from) * (2 * frames) == 0) by (nonlinear_arith);
            assert(after.pending =~= state.pending) by {
                assert(after.pending.take(state.pending.len() as int) =~= after.pending);
            }
        }
    }
}

} // verus!
