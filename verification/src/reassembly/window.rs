//! Which frames are kept, for how long, and what is counted of them.

use vstd::prelude::*;

use crate::fec;
use crate::packet::{flags, Header};
use crate::reassembly;
use crate::reassembly::{PartialView, ReassemblerView};

verus! {

/// A datagram of a frame more than eight numbers behind the newest is ignored. Any
/// other is taken in, and the newest number is the largest that was.
pub proof fn law_only_recent_frames_are_taken_in(
    state: ReassemblerView,
    header: Header,
    body: Seq<u8>,
)
    ensures
        ({
            let (after, frame) = reassembly::arrived(state, header, body);
            &&& header.seq + 8 < state.newest_seq ==> after == state && frame is None
            &&& header.seq + 8 >= state.newest_seq ==> after.newest_seq == if header.seq
                > state.newest_seq {
                header.seq
            } else {
                state.newest_seq
            }
        }),
{
}

/// Whether the body of a datagram is what its header says it is: a fragment that
/// holds as many bytes as it claims, or parity that says which block it is.
pub open spec fn is_well_formed(header: Header, body: Seq<u8>) -> bool {
    if header.flags & flags::PARITY != 0 {
        body.len() > 0
    } else {
        body.len() >= 2 && body[0] + 256 * body[1] <= body.len() - 2
    }
}

/// With each well-formed datagram that is taken in, every frame that is more than
/// eight numbers behind the newest is given up, and no other. The datagram's own
/// frame is kept unless it is complete now, and the others stay as they are. A
/// malformed datagram brings no frame and gives none up.
pub proof fn law_a_frame_is_kept_for_eight_numbers(
    state: ReassemblerView,
    header: Header,
    body: Seq<u8>,
    seq: u64,
)
    requires
        header.seq + 8 >= state.newest_seq,
        header.seq + 8 <= u64::MAX,
        seq + 8 <= u64::MAX,
    ensures
        ({
            let (after, frame) = reassembly::arrived(state, header, body);
            let recent = seq + 8 >= after.newest_seq;
            &&& seq != header.seq && after.partials.contains_key(seq) ==> state.partials.contains_key(
                seq,
            ) && after.partials[seq] == state.partials[seq]
            &&& is_well_formed(header, body) && seq != header.seq ==> (after.partials.contains_key(
                seq,
            ) <==> state.partials.contains_key(seq) && recent)
            &&& is_well_formed(header, body) ==> (after.partials.contains_key(header.seq)
                <==> frame is None)
            &&& !is_well_formed(header, body) ==> frame is None && after.dropped == state.dropped
                && after.repaired == state.repaired && after.completed == state.completed
            &&& !is_well_formed(header, body) && seq != header.seq ==> (
            after.partials.contains_key(seq) <==> state.partials.contains_key(seq))
        }),
{
    let parity = header.flagged(flags::PARITY);
    if !parity {
        fec::format::law_a_fragment_is_its_length_and_its_bytes(seq![], body);
    }
    assert(reassembly::absorbed(
        reassembly::entry_for(state.partials, header),
        header,
        body,
    ) is Some <==> is_well_formed(header, body));
}

/// A frame counts as dropped when it is given up and has never come out, once for
/// each such frame.
pub proof fn law_each_lost_frame_is_dropped_once(
    state: ReassemblerView,
    header: Header,
    body: Seq<u8>,
)
    requires
        state.partials.dom().finite(),
        header.seq + 8 >= state.newest_seq,
        is_well_formed(header, body),
    ensures
        ({
            let after = reassembly::arrived(state, header, body).0;
            let lost = state.partials.dom().filter(
                |seq: u64|
                    {
                        &&& seq != header.seq
                        &&& seq + 8 < after.newest_seq
                        &&& !state.completed.contains((seq, state.partials[seq].header.fragment_count))
                    },
            );
            after.dropped == state.dropped + lost.len()
        }),
{
    let after = reassembly::arrived(state, header, body).0;
    let limit = reassembly::cutoff(after.newest_seq);
    if !header.flagged(flags::PARITY) {
        fec::format::law_a_fragment_is_its_length_and_its_bytes(seq![], body);
    }
    reassembly::law_only_lost_frames_are_dropped(state, header, body);
    let lost = state.partials.dom().filter(
        |seq: u64|
            {
                &&& seq != header.seq
                &&& seq + 8 < after.newest_seq
                &&& !state.completed.contains((seq, state.partials[seq].header.fragment_count))
            },
    );
    assert(reassembly::abandoned(state.partials, state.completed, limit).remove(header.seq)
        =~= lost);
}

/// A frame that comes out is remembered with its number of fragments; nothing else
/// is, and what is too old is forgotten.
pub proof fn law_what_came_out_is_remembered(
    state: ReassemblerView,
    header: Header,
    body: Seq<u8>,
    seq: u64,
    count: u16,
)
    requires
        header.seq + 8 >= state.newest_seq,
        is_well_formed(header, body),
    ensures
        ({
            let (after, frame) = reassembly::arrived(state, header, body);
            after.completed.contains((seq, count)) <==> {
                &&& seq + 8 >= after.newest_seq
                &&& state.completed.contains((seq, count)) || (frame is Some && seq == header.seq
                    && count == header.fragment_count)
            }
        }),
{
    if !header.flagged(flags::PARITY) {
        fec::format::law_a_fragment_is_its_length_and_its_bytes(seq![], body);
    }
}

/// How many fragments are missing is counted one by one.
pub proof fn law_missing_fragments_are_counted(
    fragments: Seq<Option<Seq<u8>>>,
    last: Option<Seq<u8>>,
)
    ensures
        reassembly::holes(seq![]) == 0,
        reassembly::holes(fragments.push(last)) == reassembly::holes(fragments) + if last is None {
            1nat
        } else {
            0
        },
{
    assert(fragments.push(last).drop_last() =~= fragments);
}

/// Of a frame's fragments the first copy counts: a later one changes nothing, even
/// if it differs.
pub proof fn law_the_first_copy_of_a_fragment_counts(
    entry: PartialView,
    header: Header,
    body: Seq<u8>,
)
    requires
        header.flags & flags::PARITY == 0,
        is_well_formed(header, body),
        header.fragment_index < entry.fragments.len(),
    ensures
        ({
            let at = header.fragment_index as int;
            let known = reassembly::absorbed(entry, header, body);
            &&& known is Some
            &&& known->0.fragments.len() == entry.fragments.len()
            &&& entry.fragments[at] is Some ==> known == Some(entry)
            &&& entry.fragments[at] is None ==> known->0.fragments[at] == Some(
                body.subrange(2, 2 + body[0] + 256 * body[1]),
            )
            &&& forall|i: int|
                0 <= i < entry.fragments.len() && i != at ==> #[trigger] known->0.fragments[i]
                    == entry.fragments[i]
            &&& known->0.p == entry.p
            &&& known->0.q == entry.q
            &&& known->0.header == entry.header
        }),
{
    fec::format::law_a_fragment_is_its_length_and_its_bytes(seq![], body);
}

/// What is known of a frame is thrown away when a datagram gives its number another
/// shape, and kept otherwise.
pub proof fn law_a_new_shape_starts_afresh(partials: Map<u64, PartialView>, header: Header, i: int)
    requires
        0 <= i < header.fragment_count,
    ensures
        ({
            let entry = reassembly::entry_for(partials, header);
            let known = partials.contains_key(header.seq) && partials[header.seq].fragments.len()
                == header.fragment_count;
            &&& entry.fragments.len() == header.fragment_count
            &&& known ==> entry == partials[header.seq]
            &&& !known ==> entry.fragments[i] is None && entry.header == header
                && entry.p.dom().is_empty() && entry.q.dom().is_empty()
        }),
{
}

/// Every fragment that parity rebuilds, of a frame that has not come out, is
/// counted once: by as many as it leaves fewer missing than there were with the
/// datagram alone.
pub proof fn law_rebuilt_fragments_are_counted(
    state: ReassemblerView,
    header: Header,
    body: Seq<u8>,
)
    requires
        header.seq + 8 >= state.newest_seq,
        is_well_formed(header, body),
        !state.completed.contains((header.seq, header.fragment_count)),
    ensures
        ({
            let (after, frame) = reassembly::arrived(state, header, body);
            let known = reassembly::absorbed(
                reassembly::entry_for(state.partials, header),
                header,
                body,
            )->0;
            let missing = reassembly::holes(known.fragments);
            &&& frame is Some ==> after.repaired == state.repaired + missing
            &&& frame is None ==> after.repaired == state.repaired + missing - reassembly::holes(
                after.partials[header.seq].fragments,
            )
        }),
{
    if !header.flagged(flags::PARITY) {
        fec::format::law_a_fragment_is_its_length_and_its_bytes(seq![], body);
    }
}

/// A frame is described by the first datagram of it that arrived, except that it
/// carries parameter sets if any of its datagrams says so.
pub proof fn law_any_datagram_can_tell_of_parameter_sets(entry: PartialView, header: Header)
    ensures
        ({
            let after = reassembly::settled(entry, header).header;
            &&& after.seq == entry.header.seq
            &&& after.pts_micros == entry.header.pts_micros
            &&& after.fragment_index == entry.header.fragment_index
            &&& after.fragment_count == entry.header.fragment_count
            &&& after.kind == entry.header.kind
            &&& after.rate == entry.header.rate
            &&& after.flags & flags::HAS_PARAMS != 0 <==> (entry.header.flags & flags::HAS_PARAMS
                != 0 || header.flags & flags::HAS_PARAMS != 0)
            &&& after.flags & flags::KEYFRAME == entry.header.flags & flags::KEYFRAME
        }),
{
    reassembly::lemma_params_flag(entry.header.flags);
}

/// A reassembler starts with nothing held, nothing come out and nothing counted.
pub proof fn law_a_new_reassembler_is_empty(seq: u64, count: u16)
    ensures
        ({
            let state = reassembly::Reassembler::initial();
            &&& !state.partials.contains_key(seq)
            &&& !state.completed.contains((seq, count))
            &&& state.newest_seq == 0
            &&& state.repaired == 0
            &&& state.dropped == 0
        }),
{
}

/// A parity block is kept by its level for the group it says it covers, the last copy
/// in place of any before it. One of a level beyond the second is of no use.
pub proof fn law_the_last_copy_of_parity_counts(
    entry: PartialView,
    header: Header,
    body: Seq<u8>,
    start: u16,
)
    requires
        header.flags & flags::PARITY != 0,
        body.len() > 0,
    ensures
        ({
            let known = reassembly::absorbed(entry, header, body);
            let (old, now) = (entry, known->0);
            let block = body.subrange(1, body.len() as int);
            let here = start == header.fragment_index;
            &&& known is Some
            &&& now.header == old.header
            &&& now.fragments == old.fragments
            &&& body[0] == 0 && here ==> now.p.contains_key(start) && now.p[start] == block
            &&& body[0] == 1 && here ==> now.q.contains_key(start) && now.q[start] == block
            &&& body[0] != 0 || !here ==> (now.p.contains_key(start) <==> old.p.contains_key(start))
                && now.p[start] == old.p[start]
            &&& body[0] != 1 || !here ==> (now.q.contains_key(start) <==> old.q.contains_key(start))
                && now.q[start] == old.q[start]
            &&& body[0] >= 2 ==> now == old
        }),
{
    assert(body.skip(1) =~= body.subrange(1, body.len() as int));
    assert(header.flagged(flags::PARITY));
}

} // verus!
