//! What the receiver holds of a stream, step by step, and what it counts.

use vstd::prelude::*;

use crate::chunks;
use crate::packet;
use crate::packet::{flags, Header};
use crate::reassembly;
use crate::video;
use crate::video::{DepacketizerView, SourceView, Step, Turn};

verus! {

/// Whether a frame that was put together is of use: its turn has not passed, and if
/// it says that it carries parameter sets, it does.
pub open spec fn is_usable(state: DepacketizerView, frame: reassembly::FrameView) -> bool {
    &&& state.next_seq matches Some(next) ==> frame.header.seq >= next
    &&& frame.header.flags & flags::HAS_PARAMS != 0 ==> packet::params_opening(frame.data) is Some
}

/// A frame that a datagram completes is held for its turn, whole, if it is of use,
/// and the first of all sets where the turns begin; holding one ends a flush. Apart
/// from that, a datagram only passes through reassembly.
pub proof fn law_a_completed_frame_waits_for_its_turn(
    state: DepacketizerView,
    header: Header,
    body: Seq<u8>,
    seq: u64,
)
    ensures
        ({
            let (reassembler, frame) = reassembly::arrived(state.reassembler, header, body);
            let after = state.pushed(header, body);
            &&& frame is None || !is_usable(state, frame->0) ==> after == (DepacketizerView {
                reassembler,
                ..state
            })
            &&& frame is Some && is_usable(state, frame->0) ==> {
                let f = frame->0;
                let held = after.staged[f.header.seq];
                &&& after.reassembler == reassembler
                &&& after.staged.contains_key(f.header.seq)
                &&& held.pts_micros == f.header.pts_micros
                &&& held.keyframe == (f.header.flags & flags::KEYFRAME != 0)
                &&& f.header.flags & flags::HAS_PARAMS == 0 ==> held.params is None && held.data
                    == f.data
                &&& f.header.flags & flags::HAS_PARAMS != 0 ==> held.params is Some
                    && packet::params_opening(f.data) == Some((held.params->0, held.data))
                &&& seq != f.header.seq ==> (after.staged.contains_key(seq)
                    <==> state.staged.contains_key(seq))
                &&& seq != f.header.seq && state.staged.contains_key(seq) ==> after.staged[seq]
                    == state.staged[seq]
                &&& after.next_seq == match state.next_seq {
                    Some(next) => Some(next),
                    None => Some(f.header.seq),
                }
                &&& !after.flushing
                &&& after.have_params == state.have_params
                &&& after.synced == state.synced
                &&& after.resyncs == state.resyncs
                &&& after.discarded == state.discarded
                &&& after.window_completed == state.window_completed
                &&& after.window_first == state.window_first
                &&& after.window_last == state.window_last
            }
        }),
{
}

/// A poll takes up one number or none. It takes up the next one if a frame is held
/// for it, or if it is to be given up: more than three frames wait behind it, or the
/// stream is flushed and any does. Then just that number is no longer held. A poll
/// that takes up none changes nothing.
pub proof fn law_a_poll_takes_up_one_number(state: DepacketizerView, seq: u64)
    requires
        state.valid(),
    ensures
        ({
            let (after, received) = state.polled();
            let next = state.next_seq->0;
            let here = state.next_seq is Some && state.staged.contains_key(next);
            let given_up = state.next_seq is Some && !here && (state.staged.len() > 3 || (
            state.flushing && state.staged.len() > 0));
            &&& received is Pending <==> !here && !given_up
            &&& received is Pending ==> after == state
            &&& received !is Pending ==> {
                &&& next < u64::MAX
                &&& after.next_seq == Some((next + 1) as u64)
                &&& after.staged.contains_key(seq) <==> state.staged.contains_key(seq) && seq != next
                &&& after.staged.contains_key(seq) ==> after.staged[seq] == state.staged[seq]
                &&& after.reassembler == state.reassembler
                &&& after.flushing == state.flushing
            }
            &&& given_up ==> {
                &&& received is NeedKeyframe
                &&& !after.synced
                &&& after.have_params == state.have_params
                &&& after.resyncs == state.resyncs + 1
                &&& after.discarded == state.discarded + 1
            }
            &&& here ==> {
                let frame = state.staged[next];
                &&& after.synced == (state.synced || frame.keyframe)
                &&& after.have_params == (state.have_params || frame.params is Some)
                &&& after.resyncs == state.resyncs
                &&& received is Frame <==> after.synced && after.have_params
                &&& received is Frame ==> after.discarded == state.discarded
                &&& received is NeedKeyframe ==> after.discarded == state.discarded + 1
                &&& received is Frame ==> received->seq == next && received->params == frame.params
                    && received->data == frame.data && received->pts_micros == frame.pts_micros
            }
        }),
{
    if state.next_seq is Some && state.staged.contains_key(state.next_seq->0) {
        assert(state.staged.dom().contains(state.next_seq->0));
        assert(state.staged.dom().len() > 0) by {
            if state.staged.dom().len() == 0 {
                assert(state.staged.dom() =~= Set::<u64>::empty());
            }
        }
    }
    if !(state.polled().1 is Pending) {
        video::lemma_released_is_in_range(state);
    }
}

/// How many turns gave a frame up as missing.
pub open spec fn given_up(turns: Seq<Turn>) -> nat
    decreases turns.len(),
{
    if turns.len() == 0 {
        0
    } else {
        given_up(turns.drop_last()) + if turns.last().frame is None {
            1nat
        } else {
            0
        }
    }
}

/// How many turns brought no frame that can be decoded.
pub open spec fn refused(turns: Seq<Turn>) -> nat
    decreases turns.len(),
{
    if turns.len() == 0 {
        0
    } else {
        refused(turns.drop_last()) + if turns.last().received is Frame {
            0nat
        } else {
            1
        }
    }
}

/// Over any run of steps, every number given up as missing counts as a resync, and
/// every turn that brings nothing to decode counts as discarded, each once and
/// nothing besides.
pub proof fn law_counts_follow_the_turns(steps: Seq<Step>)
    requires
        forall|i: int| 0 <= i < steps.len() ==> (#[trigger] steps[i]).is_countable(),
    ensures
        ({
            let state = video::after_steps(DepacketizerView::initial(), steps);
            let turns = video::turns_of(DepacketizerView::initial(), steps);
            &&& state.resyncs == given_up(turns)
            &&& state.discarded == refused(turns)
        }),
    decreases steps.len(),
{
    let start = DepacketizerView::initial();
    if steps.len() > 0 {
        let rest = steps.drop_last();
        assert forall|i: int| 0 <= i < rest.len() implies (#[trigger] rest[i]).is_countable() by {
            assert(rest[i] == steps[i]);
        }
        law_counts_follow_the_turns(rest);
        video::lemma_steps(start, rest);
        let before = video::after_steps(start, rest);
        let earlier = video::turns_of(start, rest);
        match steps.last() {
            Step::Poll => {
                law_a_poll_takes_up_one_number(before, 0);
                match steps.last().turn(before) {
                    Some(turn) => {
                        assert(earlier.push(turn).drop_last() =~= earlier);
                    },
                    None => {},
                }
            },
            Step::Datagram { header, body } => {
                law_a_completed_frame_waits_for_its_turn(before, header, body, 0);
            },
            _ => {},
        }
    }
}

/// What a frame is cut into: its parameter sets, where it has any, and then its
/// data, in blocks of 1253 bytes, of which only the last may be shorter.
pub proof fn law_a_frame_is_its_parameter_sets_and_its_data(source: SourceView, i: int)
    requires
        0 <= i < source.blocks().len(),
    ensures
        ({
            let blocks = source.blocks();
            &&& source.params.len() == 0 ==> chunks::joined(blocks) == source.data
            &&& source.params.len() > 0 ==> chunks::joined(blocks) == packet::params_bytes(
                source.params,
            ) + source.data
            &&& i < blocks.len() - 1 ==> blocks[i].len() == 1253
            &&& blocks[i].len() <= 1253
        }),
{
    chunks::law_blocks_join(source.payload(), 1253);
    chunks::law_blocks_stand_one_behind_the_other(source.payload(), 1253, i);
}

/// A receiver starts with nothing held and nothing counted, and can decode nothing
/// yet.
pub proof fn law_a_new_receiver_has_seen_nothing(seq: u64)
    ensures
        ({
            let state = DepacketizerView::initial();
            &&& state.reassembler == reassembly::Reassembler::initial()
            &&& !state.staged.contains_key(seq)
            &&& state.next_seq is None
            &&& !state.synced && !state.have_params && !state.flushing
            &&& state.resyncs == 0 && state.discarded == 0
            &&& state.turns() == 0 && state.window_completed == 0
        }),
{
}

} // verus!
