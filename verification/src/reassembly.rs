//! Reassembles fragmented video frames arriving out of order over UDP.

use std::collections::HashMap;

use vstd::prelude::*;

use crate::chunks;
use crate::fec;
use crate::packet::{flags, Header, Kind};

pub mod window;

verus! {

broadcast use vstd::std_specs::hash::group_hash_axioms;

/// How many frames behind the newest arrival we keep trying to complete.
/// Anything older is stale for a live stream and is dropped.
pub const STALE_DISTANCE: u64 = 8;

/// What is known of a frame that is not complete yet.
#[verifier::ext_equal]
pub struct PartialView {
    pub header: Header,
    pub fragments: Seq<Option<Seq<u8>>>,
    /// Plain parity blocks, by the first fragment of the group they cover.
    pub p: Map<u16, Seq<u8>>,
    /// Weighted parity blocks, by the first fragment of the group they cover.
    pub q: Map<u16, Seq<u8>>,
}

/// A frame as it comes out of reassembly.
#[verifier::ext_equal]
pub struct FrameView {
    pub header: Header,
    pub data: Seq<u8>,
}

/// The state of a reassembler.
#[verifier::ext_equal]
pub struct ReassemblerView {
    pub partials: Map<u64, PartialView>,
    /// The frames that have come out, by number and number of fragments, as long
    /// as their datagrams may still arrive.
    pub completed: Set<(u64, u16)>,
    pub newest_seq: u64,
    pub repaired: int,
    pub dropped: int,
}

impl ReassemblerView {
    /// Whether every frame is kept under its own number.
    pub open spec fn valid(self) -> bool {
        forall|seq: u64| #[trigger]
            self.partials.contains_key(seq) ==> self.partials[seq].header.seq == seq
    }

    /// Whether the frame that a header belongs to has come out. What still arrives
    /// of it, parity or copies, was neither lost nor missed.
    pub open spec fn has_delivered(self, header: Header) -> bool {
        self.completed.contains((header.seq, header.fragment_count))
    }

    /// Whether the counters can still count what one more datagram may bring.
    pub open spec fn has_headroom(self) -> bool {
        &&& self.repaired + u16::MAX <= u64::MAX
        &&& self.dropped + self.partials.len() + 1 <= u64::MAX
    }
}

/// The end of the group that starts at `first`.
pub open spec fn group_end(len: nat, first: int) -> int {
    if first + fec::GROUP <= len {
        first + fec::GROUP
    } else {
        len as int
    }
}

/// The block held for the group at `first`, if any.
pub open spec fn block_at(blocks: Map<u16, Seq<u8>>, first: int) -> Option<Seq<u8>> {
    if first <= u16::MAX && blocks.contains_key(first as u16) {
        Some(blocks[first as u16])
    } else {
        None
    }
}

/// The fragments once the group at `first` is rebuilt from its parity, as far as
/// that can be done.
pub open spec fn group_repaired(
    fragments: Seq<Option<Seq<u8>>>,
    first: int,
    p: Map<u16, Seq<u8>>,
    q: Map<u16, Seq<u8>>,
) -> Seq<Option<Seq<u8>>> {
    let end = group_end(fragments.len(), first);
    match fec::solved(fragments.subrange(first, end), block_at(p, first), block_at(q, first)) {
        Some(window) => fragments.take(first) + window + fragments.skip(end),
        None => fragments,
    }
}

/// The fragments once the groups that start before `n` are rebuilt, in order.
pub open spec fn repaired_before(
    fragments: Seq<Option<Seq<u8>>>,
    n: int,
    p: Map<u16, Seq<u8>>,
    q: Map<u16, Seq<u8>>,
) -> Seq<Option<Seq<u8>>>
    decreases n,
{
    if n <= 0 {
        fragments
    } else {
        group_repaired(repaired_before(fragments, n - 1, p, q), n - 1, p, q)
    }
}

/// How many fragments are not held.
pub open spec fn holes(fragments: Seq<Option<Seq<u8>>>) -> nat {
    fec::gaps(fragments).len()
}

pub proof fn lemma_gaps_split(a: Seq<Option<Seq<u8>>>, b: Seq<Option<Seq<u8>>>)
    ensures
        holes(a + b) == holes(a) + holes(b),
    decreases b.len(),
{
    if b.len() == 0 {
        assert(a + b =~= a);
    } else {
        lemma_gaps_split(a, b.drop_last());
        assert((a + b).drop_last() =~= a + b.drop_last());
    }
}

/// No holes means that everything is held.
pub proof fn lemma_no_holes(fragments: Seq<Option<Seq<u8>>>)
    ensures
        holes(fragments) == 0 <==> forall|i: int|
            0 <= i < fragments.len() ==> (#[trigger] fragments[i]) is Some,
{
    fec::lemma_gaps(fragments);
    if holes(fragments) == 0 {
        assert forall|i: int| 0 <= i < fragments.len() implies (#[trigger] fragments[i]) is Some by {
            if fragments[i] is None {
                assert(fec::gaps(fragments).contains(i as nat));
            }
        }
    } else {
        let g = fec::gaps(fragments)[0];
        assert(fragments[g as int] is None);
    }
}

/// Filling a hole leaves one less.
pub proof fn lemma_fill_hole(fragments: Seq<Option<Seq<u8>>>, i: int, data: Seq<u8>)
    requires
        0 <= i < fragments.len(),
        fragments[i] is None,
    ensures
        holes(fragments.update(i, Some(data))) == holes(fragments) - 1,
    decreases fragments.len(),
{
    let filled = fragments.update(i, Some(data));
    if i == fragments.len() - 1 {
        assert(filled.drop_last() =~= fragments.drop_last());
    } else {
        assert(filled.drop_last() =~= fragments.drop_last().update(i, Some(data)));
        lemma_fill_hole(fragments.drop_last(), i, data);
    }
}

/// A solved group has no gaps left and is as long as it was.
pub proof fn lemma_solved_is_full(
    window: Seq<Option<Seq<u8>>>,
    p: Option<Seq<u8>>,
    q: Option<Seq<u8>>,
)
    ensures
        fec::solved(window, p, q) matches Some(after) ==> after.len() == window.len() && holes(
            after,
        ) == 0 && holes(window) > 0,
{
    fec::lemma_gaps(window);
    if fec::solved(window, p, q) is Some {
        let after = fec::solved(window, p, q)->0;
        let i = fec::gaps(window)[0] as int;
        let first = after[i]->0;
        lemma_fill_hole(window, i, first);
        if holes(window) == 2 {
            let j = fec::gaps(window)[1] as int;
            assert(fec::gaps(window)[0] < fec::gaps(window)[1]);
            let half = window.update(i, Some(first));
            lemma_fill_hole(half, j, after[j]->0);
            assert(after =~= half.update(j, Some(after[j]->0)));
        } else {
            assert(after =~= window.update(i, Some(first)));
        }
    }
}

/// Repair keeps the number of fragments, and takes holes away.
pub proof fn lemma_group_repaired(
    fragments: Seq<Option<Seq<u8>>>,
    first: int,
    p: Map<u16, Seq<u8>>,
    q: Map<u16, Seq<u8>>,
)
    requires
        0 <= first < fragments.len(),
    ensures
        group_repaired(fragments, first, p, q).len() == fragments.len(),
        holes(group_repaired(fragments, first, p, q)) <= holes(fragments),
        ({
            let window = fragments.subrange(first, group_end(fragments.len(), first));
            match fec::solved(window, block_at(p, first), block_at(q, first)) {
                Some(_) => holes(group_repaired(fragments, first, p, q)) == holes(fragments)
                    - holes(window),
                None => group_repaired(fragments, first, p, q) == fragments,
            }
        }),
{
    let end = group_end(fragments.len(), first);
    let window = fragments.subrange(first, end);
    lemma_solved_is_full(window, block_at(p, first), block_at(q, first));
    assert(fragments =~= fragments.take(first) + window + fragments.skip(end));
    lemma_gaps_split(fragments.take(first), window);
    lemma_gaps_split(fragments.take(first) + window, fragments.skip(end));
    match fec::solved(window, block_at(p, first), block_at(q, first)) {
        Some(after) => {
            lemma_gaps_split(fragments.take(first), after);
            lemma_gaps_split(fragments.take(first) + after, fragments.skip(end));
        },
        None => {},
    }
}

pub proof fn lemma_repaired_before(
    fragments: Seq<Option<Seq<u8>>>,
    n: int,
    p: Map<u16, Seq<u8>>,
    q: Map<u16, Seq<u8>>,
)
    requires
        0 <= n <= fragments.len(),
    ensures
        repaired_before(fragments, n, p, q).len() == fragments.len(),
        holes(repaired_before(fragments, n, p, q)) <= holes(fragments),
    decreases n,
{
    if n > 0 {
        lemma_repaired_before(fragments, n - 1, p, q);
        lemma_group_repaired(repaired_before(fragments, n - 1, p, q), n - 1, p, q);
    }
}

/// Where no parity starts between `n` and `m`, nothing is repaired there.
proof fn lemma_repaired_skip(
    fragments: Seq<Option<Seq<u8>>>,
    n: int,
    m: int,
    p: Map<u16, Seq<u8>>,
    q: Map<u16, Seq<u8>>,
)
    requires
        0 <= n <= m <= fragments.len(),
        forall|s: u16|
            #![trigger p.contains_key(s)]
            #![trigger q.contains_key(s)]
            n <= s < m ==> !p.contains_key(s) && !q.contains_key(s),
    ensures
        repaired_before(fragments, m, p, q) == repaired_before(fragments, n, p, q),
    decreases m - n,
{
    if n < m {
        lemma_repaired_skip(fragments, n, m - 1, p, q);
        if m - 1 <= u16::MAX {
            let s = (m - 1) as u16;
            assert(!p.contains_key(s) && !q.contains_key(s));
        }
    }
}

/// A frame that is not complete yet.
struct Partial {
    header: Header,
    fragments: Vec<Option<Vec<u8>>>,
    /// How many fragments are held.
    received: usize,
    /// Parity blocks, by the first fragment of the group they cover.
    p: HashMap<u16, Vec<u8>>,
    q: HashMap<u16, Vec<u8>>,
    /// Where the groups start that parity has arrived for, in order.
    starts: Vec<u16>,
}

/// What is held in a map of byte vectors.
pub open spec fn blocks_of(blocks: Map<u16, Vec<u8>>) -> Map<u16, Seq<u8>> {
    blocks.map_values(|block: Vec<u8>| block@)
}

impl Partial {
    spec fn model(self) -> PartialView {
        PartialView {
            header: self.header,
            fragments: fec::held(self.fragments@),
            p: blocks_of(self.p@),
            q: blocks_of(self.q@),
        }
    }

    spec fn valid(self) -> bool {
        &&& self.received + holes(fec::held(self.fragments@)) == self.fragments@.len()
        &&& self.fragments@.len() <= u16::MAX
        &&& forall|i: int, j: int|
            0 <= i < j < self.starts@.len() ==> #[trigger] self.starts@[i]
                < #[trigger] self.starts@[j]
        &&& forall|s: u16|
            #![trigger self.p@.contains_key(s)]
            #![trigger self.q@.contains_key(s)]
            self.p@.contains_key(s) || self.q@.contains_key(s) ==> self.starts@.contains(s)
    }

    /// Rebuilds every group whose parity can describe what it is missing.
    ///
    /// Runs after every arrival, because the arrival may be either the parity
    /// that completes a group or the fragment that makes one recoverable.
    fn repair(&mut self) -> (rebuilt: usize)
        requires
            old(self).valid(),
        ensures
            final(self).valid(),
            final(self).model() == (PartialView {
                fragments: repaired_before(
                    old(self).model().fragments,
                    old(self).model().fragments.len() as int,
                    old(self).model().p,
                    old(self).model().q,
                ),
                ..old(self).model()
            }),
            rebuilt == holes(old(self).model().fragments) - holes(final(self).model().fragments),
    {
        let ghost before = self.model();
        let ghost p = before.p;
        let ghost q = before.q;
        let count: usize = self.fragments.len();
        let mut rebuilt: usize = 0;
        let mut g: usize = 0;
        let ghost mut done: int = 0;
        while g < self.starts.len()
            invariant
                g <= self.starts@.len(),
                count == self.fragments@.len(),
                count <= u16::MAX,
                count == before.fragments.len(),
                p == before.p,
                q == before.q,
                self.header == old(self).header,
                self.p@ == old(self).p@,
                self.q@ == old(self).q@,
                self.starts@ == old(self).starts@,
                self.received == old(self).received,
                old(self).valid(),
                before == old(self).model(),
                0 <= done <= count,
                self.model().fragments == repaired_before(before.fragments, done, p, q),
                rebuilt + holes(self.model().fragments) == holes(before.fragments),
                forall|i: int|
                    g <= i < self.starts@.len() && (#[trigger] self.starts@[i]) < count
                        ==> done <= self.starts@[i],
                forall|i: int|
                    0 <= i < g && self.starts@[i] < count ==> (#[trigger] self.starts@[i]) < done,
            decreases self.starts@.len() - g,
        {
            let start: u16 = self.starts[g];
            let first: usize = start as usize;
            if first < count {
                let end: usize = if count - first > fec::GROUP {
                    first + fec::GROUP
                } else {
                    count
                };
                let ghost current = self.model().fragments;
                proof {
                    assert forall|s: u16|
                        #![trigger p.contains_key(s)]
                        #![trigger q.contains_key(s)]
                        done <= s < first implies !p.contains_key(s) && !q.contains_key(s) by {
                        lemma_start_not_between(*old(self), done, first as int, g as int, s);
                    }
                    lemma_repaired_skip(before.fragments, done, first as int, p, q);
                    lemma_repaired_before(before.fragments, first as int, p, q);
                    lemma_group_repaired(current, first as int, p, q);
                    done = first + 1;
                }
                let missing: usize = count_gaps(&self.fragments, first, end);
                // Nothing to do, or more holes than two parity blocks can describe.
                let found: usize = if missing == 0 || missing > fec::MAX_PARITY {
                    0
                } else {
                    let mut window = copy_window(&self.fragments, first, end);
                    let p_block: Option<&[u8]> = match self.p.get(&start) {
                        Some(block) => Some(block.as_slice()),
                        None => None,
                    };
                    let q_block: Option<&[u8]> = match self.q.get(&start) {
                        Some(block) => Some(block.as_slice()),
                        None => None,
                    };
                    let found: usize = fec::recover_group(
                        window.as_mut_slice(),
                        p_block,
                        q_block,
                    );
                    if found > 0 {
                        put_window(&mut self.fragments, first, window);
                    }
                    found
                };
                rebuilt = rebuilt + found;
            }
            g = g + 1;
        }
        proof {
            assert forall|s: u16|
                #![trigger p.contains_key(s)]
                #![trigger q.contains_key(s)]
                done <= s < count implies !p.contains_key(s) && !q.contains_key(s) by {
                if old(self).p@.contains_key(s) || old(self).q@.contains_key(s) {
                    assert(self.starts@.contains(s));
                }
            }
            lemma_repaired_skip(before.fragments, done, count as int, p, q);
        }
        self.received = self.received + rebuilt;
        rebuilt
    }
}

proof fn lemma_start_not_between(partial: Partial, done: int, first: int, g: int, s: u16)
    requires
        partial.valid(),
        0 <= g < partial.starts@.len(),
        partial.starts@[g] == first,
        done <= s < first,
        forall|i: int|
            0 <= i < g && partial.starts@[i] < first ==> (#[trigger] partial.starts@[i]) < done,
    ensures
        !partial.p@.contains_key(s),
        !partial.q@.contains_key(s),
{
    if partial.p@.contains_key(s) || partial.q@.contains_key(s) {
        assert(partial.starts@.contains(s));
        let i = choose|i: int| 0 <= i < partial.starts@.len() && partial.starts@[i] == s;
        if i > g {
            assert(partial.starts@[g] < partial.starts@[i]);
        }
    }
}

/// How many of the fragments from `first` to `end` are not held.
fn count_gaps(fragments: &Vec<Option<Vec<u8>>>, first: usize, end: usize) -> (missing: usize)
    requires
        first <= end <= fragments@.len(),
    ensures
        missing == holes(fec::held(fragments@).subrange(first as int, end as int)),
{
    let ghost all = fec::held(fragments@);
    let mut missing: usize = 0;
    let mut i: usize = first;
    while i < end
        invariant
            first <= i <= end <= fragments@.len(),
            all == fec::held(fragments@),
            missing <= i - first,
            missing == holes(all.subrange(first as int, i as int)),
        decreases end - i,
    {
        proof {
            let longer = all.subrange(first as int, i + 1);
            assert(longer.drop_last() =~= all.subrange(first as int, i as int));
            assert(longer.last() == all[i as int]);
        }
        if fragments[i].is_none() {
            missing = missing + 1;
        }
        i = i + 1;
    }
    missing
}

/// A copy of the fragments from `first` to `end`.
fn copy_window(fragments: &Vec<Option<Vec<u8>>>, first: usize, end: usize) -> (window: Vec<
    Option<Vec<u8>>,
>)
    requires
        first <= end <= fragments@.len(),
    ensures
        fec::held(window@) == fec::held(fragments@).subrange(first as int, end as int),
{
    let mut window: Vec<Option<Vec<u8>>> = Vec::new();
    let mut i: usize = first;
    while i < end
        invariant
            first <= i <= end <= fragments@.len(),
            fec::held(window@) == fec::held(fragments@).subrange(first as int, i as int),
        decreases end - i,
    {
        let copy: Option<Vec<u8>> = match &fragments[i] {
            Some(data) => Some(vstd::slice::slice_to_vec(data.as_slice())),
            None => None,
        };
        let ghost before = window@;
        window.push(copy);
        proof {
            assert(fec::held(window@) =~= fec::held(before).push(fec::held(fragments@)[i as int]));
            assert(fec::held(window@) =~= fec::held(fragments@).subrange(first as int, i + 1));
        }
        i = i + 1;
    }
    window
}

/// Puts the fragments of `window` in place from `first` on.
fn put_window(fragments: &mut Vec<Option<Vec<u8>>>, first: usize, window: Vec<Option<Vec<u8>>>)
    requires
        first + window@.len() <= old(fragments)@.len(),
    ensures
        fec::held(final(fragments)@) == fec::held(old(fragments)@).take(first as int) + fec::held(
            window@,
        ) + fec::held(old(fragments)@).skip(first + window@.len()),
{
    let mut rest = window;
    let mut i: usize = rest.len();
    let total: usize = fragments.len();
    let ghost before = fragments@;
    let ghost whole = window@;
    while i > 0
        invariant
            i <= whole.len(),
            total == before.len(),
            rest@ == whole.take(i as int),
            first + whole.len() <= before.len(),
            fragments@ == before.take(first + i) + whole.skip(i as int) + before.skip(
                first + whole.len(),
            ),
        decreases i,
    {
        i = i - 1;
        match rest.pop() {
            Some(fragment) => {
                fragments.set(first + i, fragment);
            },
            None => {},
        }
        proof {
            assert(rest@ =~= whole.take(i as int));
            assert(fragments@ =~= before.take(first + i) + whole.skip(i as int) + before.skip(
                first + whole.len(),
            ));
        }
    }
    assert(fec::held(fragments@) =~= fec::held(before).take(first as int) + fec::held(whole)
        + fec::held(before).skip(first + whole.len()));
}

/// A frame nothing is held of yet.
pub open spec fn fresh(header: Header) -> PartialView {
    PartialView {
        header,
        fragments: Seq::new(header.fragment_count as nat, |i: int| None),
        p: Map::empty(),
        q: Map::empty(),
    }
}

/// What is known of the frame of `header` before its datagram is looked into. A
/// peer that restarts could reuse a sequence number with a new shape.
pub open spec fn entry_for(partials: Map<u64, PartialView>, header: Header) -> PartialView {
    if partials.contains_key(header.seq) && partials[header.seq].fragments.len()
        == header.fragment_count {
        partials[header.seq]
    } else {
        fresh(header)
    }
}

/// What is known once the datagram is looked into, or nothing where its body is
/// malformed. The first of a fragment's copies is the one that counts; of a
/// parity block's, the last.
pub open spec fn absorbed(entry: PartialView, header: Header, body: Seq<u8>) -> Option<
    PartialView,
> {
    if header.flagged(flags::PARITY) {
        if body.len() == 0 {
            None
        } else if body[0] == 0 {
            Some((PartialView { p: entry.p.insert(header.fragment_index, body.skip(1)), ..entry }))
        } else if body[0] == 1 {
            Some((PartialView { q: entry.q.insert(header.fragment_index, body.skip(1)), ..entry }))
        } else {
            Some(entry)
        }
    } else {
        match fec::fragment_opening(body) {
            None => None,
            Some(data) => if entry.fragments[header.fragment_index as int] is None {
                Some(
                    (PartialView {
                        fragments: entry.fragments.update(
                            header.fragment_index as int,
                            Some(data),
                        ),
                        ..entry
                    }),
                )
            } else {
                Some(entry)
            },
        }
    }
}

/// What is known once parity has rebuilt what it can. Parameter sets ride only on
/// some fragments, so the flag is kept from whichever fragment carried it.
pub open spec fn settled(entry: PartialView, header: Header) -> PartialView {
    PartialView {
        header: if header.flagged(flags::HAS_PARAMS) {
            Header { flags: entry.header.flags | flags::HAS_PARAMS, ..entry.header }
        } else {
            entry.header
        },
        fragments: repaired_before(
            entry.fragments,
            entry.fragments.len() as int,
            entry.p,
            entry.q,
        ),
        ..entry
    }
}

/// The data of a frame whose fragments are all held.
pub open spec fn data_of(fragments: Seq<Option<Seq<u8>>>) -> Seq<u8> {
    chunks::joined(fragments.map_values(|fragment: Option<Seq<u8>>| fragment->0))
}

/// The oldest sequence number that is still waited for.
pub open spec fn cutoff(newest_seq: u64) -> u64 {
    if newest_seq < STALE_DISTANCE {
        0
    } else {
        (newest_seq - STALE_DISTANCE) as u64
    }
}

/// The frames older than `limit` that never came out, because fragments of them
/// never arrived.
pub open spec fn abandoned(
    partials: Map<u64, PartialView>,
    completed: Set<(u64, u16)>,
    limit: u64,
) -> Set<u64> {
    partials.dom().filter(
        |seq: u64| seq < limit && !completed.contains((seq, partials[seq].header.fragment_count)),
    )
}

/// The state once frames that are too old are given up. Of a frame that has come
/// out already only copies are given up, which is no loss.
pub open spec fn evicted(state: ReassemblerView) -> ReassemblerView {
    let kept = state.partials.restrict(
        Set::new(|seq: u64| seq >= cutoff(state.newest_seq)),
    );
    ReassemblerView {
        partials: kept,
        completed: state.completed.filter(|key: (u64, u16)| key.0 >= cutoff(state.newest_seq)),
        dropped: state.dropped + abandoned(
            state.partials,
            state.completed,
            cutoff(state.newest_seq),
        ).len(),
        ..state
    }
}

/// The state after a datagram, and the frame that it completed, if it did. A
/// datagram of a frame that is too old changes nothing. A copy of a frame that has
/// come out is collected like the frame itself, but nothing of it is counted.
pub open spec fn arrived(state: ReassemblerView, header: Header, body: Seq<u8>) -> (
    ReassemblerView,
    Option<FrameView>,
) {
    if header.seq + STALE_DISTANCE < state.newest_seq {
        (state, None)
    } else {
        let newest_seq = if header.seq > state.newest_seq {
            header.seq
        } else {
            state.newest_seq
        };
        let entry = entry_for(state.partials, header);
        match absorbed(entry, header, body) {
            None => (
                ReassemblerView {
                    partials: state.partials.insert(header.seq, entry),
                    newest_seq,
                    ..state
                },
                None,
            ),
            Some(known) => {
                let after = settled(known, header);
                let repaired = state.repaired + if state.has_delivered(header) {
                    0
                } else {
                    holes(known.fragments) - holes(after.fragments)
                };
                if holes(after.fragments) > 0 {
                    (
                        evicted(
                            ReassemblerView {
                                partials: state.partials.insert(header.seq, after),
                                newest_seq,
                                repaired,
                                ..state
                            },
                        ),
                        None,
                    )
                } else {
                    (
                        evicted(
                            ReassemblerView {
                                partials: state.partials.remove(header.seq),
                                completed: state.completed.insert((header.seq, header.fragment_count)),
                                newest_seq,
                                repaired,
                                ..state
                            },
                        ),
                        Some(FrameView { header: after.header, data: data_of(after.fragments) }),
                    )
                }
            },
        }
    }
}

/// Collects the datagrams of video frames until each frame is complete.
pub struct Reassembler {
    partials: HashMap<u64, Partial>,
    /// Frames that have come out lately, by number and number of fragments. What
    /// is still under way of such a frame, its parity above all, says nothing of
    /// losses.
    completed: Vec<(u64, u16)>,
    /// Fragments rebuilt from parity rather than received.
    pub repaired: u64,
    newest_seq: u64,
    /// Frames abandoned because fragments never arrived.
    pub dropped: u64,
}

/// A fully reassembled frame.
pub struct Frame {
    pub header: Header,
    pub data: Vec<u8>,
}

impl Frame {
    pub open spec fn model(self) -> FrameView {
        FrameView { header: self.header, data: self.data@ }
    }
}

impl Default for Reassembler {
    fn default() -> (reassembler: Self)
        ensures
            reassembler.valid(),
            reassembler.model() == Reassembler::initial(),
    {
        Reassembler::new()
    }
}

impl Partial {
    /// A frame nothing is held of yet.
    fn new(header: Header) -> (partial: Self)
        ensures
            partial.valid(),
            partial.model() == fresh(header),
    {
        let count: usize = header.fragment_count as usize;
        let mut fragments: Vec<Option<Vec<u8>>> = Vec::new();
        let mut i: usize = 0;
        while i < count
            invariant
                i <= count,
                fragments@.len() == i,
                holes(fec::held(fragments@)) == i,
                forall|k: int| 0 <= k < i ==> (#[trigger] fragments@[k]) is None,
            decreases count - i,
        {
            let ghost before = fragments@;
            fragments.push(None);
            proof {
                assert(fec::held(fragments@).drop_last() =~= fec::held(before));
            }
            i = i + 1;
        }
        let partial = Partial {
            header,
            fragments,
            received: 0,
            p: HashMap::new(),
            q: HashMap::new(),
            starts: Vec::new(),
        };
        proof {
            assert(partial.model().fragments =~= fresh(header).fragments);
            assert(partial.model().p =~= fresh(header).p);
            assert(partial.model().q =~= fresh(header).q);
        }
        partial
    }

    /// Notes that parity has arrived for the group at `start`.
    fn note_start(&mut self, start: u16)
        requires
            old(self).valid(),
        ensures
            final(self).valid(),
            final(self).model() == old(self).model(),
            final(self).starts@.contains(start),
            final(self).fragments@ == old(self).fragments@,
            final(self).received == old(self).received,
            final(self).p@ == old(self).p@,
            final(self).q@ == old(self).q@,
            final(self).header == old(self).header,
    {
        let ghost before = self.starts@;
        let mut at: usize = self.starts.len();
        while at > 0 && self.starts[at - 1] > start
            invariant
                at <= self.starts@.len(),
                *self == *old(self),
                self.starts@ == before,
                forall|i: int| at <= i < before.len() ==> #[trigger] before[i] > start,
            decreases at,
        {
            at = at - 1;
        }
        if at > 0 && self.starts[at - 1] == start {
            assert(self.starts@[at - 1] == start);
            return;
        }
        self.starts.insert(at, start);
        proof {
            let after = self.starts@;
            assert(after == before.insert(at as int, start));
            assert(after[at as int] == start);
            assert forall|i: int, j: int| 0 <= i < j < after.len() implies #[trigger] after[i]
                < #[trigger] after[j] by {
                let old_i = if i < at {
                    i
                } else {
                    i - 1
                };
                let old_j = if j < at {
                    j
                } else {
                    j - 1
                };
                if i != at && j != at {
                    assert(before[old_i] < before[old_j]);
                } else if j == at && i < at - 1 {
                    assert(before[i] < before[at - 1]);
                }
            }
            assert forall|s: u16|
                #![trigger self.p@.contains_key(s)]
                #![trigger self.q@.contains_key(s)]
                self.p@.contains_key(s) || self.q@.contains_key(s) implies after.contains(s) by {
                let i = choose|i: int| 0 <= i < before.len() && before[i] == s;
                if i < at {
                    assert(after[i] == s);
                } else {
                    assert(after[i + 1] == s);
                }
            }
        }
    }

    /// Takes in one datagram's body. Returns whether it was well formed.
    fn absorb(&mut self, header: &Header, body: &[u8]) -> (well_formed: bool)
        requires
            old(self).valid(),
            header.flagged(flags::PARITY) || fec::fragment_opening(body@) is None
                || header.fragment_index < old(self).model().fragments.len(),
        ensures
            final(self).valid(),
            well_formed == absorbed(old(self).model(), *header, body@) is Some,
            final(self).model() == match absorbed(old(self).model(), *header, body@) {
                Some(known) => known,
                None => old(self).model(),
            },
    {
        let ghost before = self.model();
        if header.has(flags::PARITY) {
            // The first byte says which parity block this is.
            if body.len() == 0 {
                return false;
            }
            let level: u8 = body[0];
            let block = vstd::slice::slice_to_vec(vstd::slice::slice_subrange(body, 1, body.len()));
            assert(block@ =~= body@.skip(1));
            self.note_start(header.fragment_index);
            if level == 0 {
                self.p.insert(header.fragment_index, block);
                assert(self.model().p =~= before.p.insert(header.fragment_index, body@.skip(1)));
            } else if level == 1 {
                self.q.insert(header.fragment_index, block);
                assert(self.model().q =~= before.q.insert(header.fragment_index, body@.skip(1)));
            }
        } else {
            // Fragments carry their own length so a rebuilt one knows its size.
            let data = match fec::decode_fragment(body) {
                Some(data) => data,
                None => {
                    return false;
                },
            };
            let index: usize = header.fragment_index as usize;
            if self.fragments[index].is_none() {
                let ghost fragments = self.fragments@;
                let copy = vstd::slice::slice_to_vec(data);
                proof {
                    lemma_fill_hole(before.fragments, index as int, copy@);
                }
                self.fragments.set(index, Some(copy));
                self.received = self.received + 1;
                assert(self.model().fragments =~= before.fragments.update(
                    index as int,
                    Some(data@),
                ));
            }
        }
        true
    }

    /// The data of a frame whose fragments are all held.
    fn join(&self) -> (data: Vec<u8>)
        requires
            holes(self.model().fragments) == 0,
        ensures
            data@ == data_of(self.model().fragments),
    {
        let ghost parts = self.model().fragments.map_values(
            |fragment: Option<Seq<u8>>| fragment->0,
        );
        proof {
            lemma_no_holes(self.model().fragments);
        }
        let mut data: Vec<u8> = Vec::new();
        let mut i: usize = 0;
        assert(chunks::joined(parts.take(0)) =~= seq![]);
        while i < self.fragments.len()
            invariant
                i <= self.fragments@.len(),
                parts == self.model().fragments.map_values(
                    |fragment: Option<Seq<u8>>| fragment->0,
                ),
                forall|k: int|
                    0 <= k < self.fragments@.len() ==> (
                    #[trigger] self.model().fragments[k]) is Some,
                data@ == chunks::joined(parts.take(i as int)),
            decreases self.fragments@.len() - i,
        {
            proof {
                assert(self.model().fragments[i as int] is Some);
                assert(parts.take(i + 1).drop_last() =~= parts.take(i as int));
                assert(parts.take(i + 1).last() == parts[i as int]);
            }
            match &self.fragments[i] {
                Some(fragment) => crate::endian::append_bytes(&mut data, fragment.as_slice()),
                None => {},
            }
            i = i + 1;
        }
        assert(parts.take(i as int) =~= parts);
        data
    }
}

impl Reassembler {
    pub closed spec fn model(self) -> ReassemblerView {
        ReassemblerView {
            partials: self.partials@.map_values(|partial: Partial| partial.model()),
            completed: self.completed@.to_set(),
            newest_seq: self.newest_seq,
            repaired: self.repaired as int,
            dropped: self.dropped as int,
        }
    }

    /// What every operation keeps.
    pub closed spec fn valid(self) -> bool {
        self.stored() && self.model().valid()
    }

    /// Whether what is stored of each frame is as it should be.
    spec fn stored(self) -> bool {
        &&& self.partials@.dom().finite()
        &&& forall|seq: u64|
            self.partials@.contains_key(seq) ==> (#[trigger] self.partials@[seq]).valid()
    }

    /// A valid reassembler keeps every frame under its own number.
    pub proof fn lemma_valid(self)
        requires
            self.valid(),
        ensures
            self.model().valid(),
    {
    }

    /// A reassembler that has seen nothing.
    pub open spec fn initial() -> ReassemblerView {
        ReassemblerView {
            partials: Map::empty(),
            completed: Set::empty(),
            newest_seq: 0,
            repaired: 0,
            dropped: 0,
        }
    }

    pub fn new() -> (reassembler: Self)
        ensures
            reassembler.valid(),
            reassembler.model() == Reassembler::initial(),
    {
        let reassembler = Reassembler {
            partials: HashMap::new(),
            completed: Vec::new(),
            repaired: 0,
            newest_seq: 0,
            dropped: 0,
        };
        assert(reassembler.model().partials =~= Map::empty());
        assert(reassembler.model().completed =~= Set::empty());
        reassembler
    }

    /// How many frames are neither complete nor given up.
    pub fn waiting(&self) -> (count: usize)
        requires
            self.valid(),
        ensures
            count == self.model().partials.len(),
    {
        proof {
            lemma_map_values_len(self.partials@, |partial: Partial| partial.model());
        }
        self.partials.len()
    }

    /// Whether the counters can still count what one more datagram may bring.
    pub fn has_headroom(&self) -> (fits: bool)
        requires
            self.valid(),
        ensures
            fits == self.model().has_headroom(),
    {
        let waiting: u64 = self.waiting() as u64;
        self.repaired <= u64::MAX - 0xffff && waiting < u64::MAX && self.dropped <= u64::MAX - 1
            - waiting
    }

    /// Fragments rebuilt from parity rather than received.
    pub fn repaired_count(&self) -> (count: u64)
        ensures
            count == self.model().repaired,
    {
        self.repaired
    }

    /// Frames abandoned because fragments never arrived.
    pub fn dropped_count(&self) -> (count: u64)
        ensures
            count == self.model().dropped,
    {
        self.dropped
    }

    /// Feeds one datagram in. Returns the frame once every fragment is there,
    /// received or rebuilt.
    ///
    /// A frame too old is past its display time and is ignored rather than
    /// resurrected. Ordering and duplicate suppression happen downstream, where
    /// release order is decided: a copy of a frame that has come out is put together
    /// again. It counts neither as rebuilt nor, where it stays incomplete, as
    /// dropped.
    pub fn push(&mut self, header: Header, body: &[u8]) -> (frame: Option<Frame>)
        requires
            old(self).valid(),
            old(self).model().has_headroom(),
            header.seq + STALE_DISTANCE <= u64::MAX,
            header.flagged(flags::PARITY) || fec::fragment_opening(body@) is None
                || header.in_range(),
        ensures
            final(self).valid(),
            final(self).model() == arrived(old(self).model(), header, body@).0,
            frame is Some <==> arrived(old(self).model(), header, body@).1 is Some,
            frame matches Some(f) ==> arrived(old(self).model(), header, body@).1 == Some(
                f.model(),
            ),
    {
        let ghost before = self.model();
        let ghost stored = self.partials@;
        if header.seq + STALE_DISTANCE < self.newest_seq {
            return None;
        }
        if header.seq > self.newest_seq {
            self.newest_seq = header.seq;
        }
        let count: usize = header.fragment_count as usize;
        let mut entry = match self.partials.remove(&header.seq) {
            Some(partial) => if partial.fragments.len() == count {
                partial
            } else {
                Partial::new(header)
            },
            None => Partial::new(header),
        };
        let ghost base = entry.model();
        assert(base == entry_for(before.partials, header));
        assert(self.partials@ =~= stored.remove(header.seq));
        if !entry.absorb(&header, body) {
            self.partials.insert(header.seq, entry);
            assert(self.model().partials =~= before.partials.insert(header.seq, base));
            return None;
        }
        let ghost known = entry.model();
        let rebuilt: usize = entry.repair();
        proof {
            lemma_repaired_before(
                known.fragments,
                known.fragments.len() as int,
                known.p,
                known.q,
            );
            fec::lemma_gaps(known.fragments);
        }
        let delivered: bool = self.has_completed(header.seq, header.fragment_count);
        if !delivered {
            self.repaired = self.repaired + rebuilt as u64;
        }
        if header.has(flags::HAS_PARAMS) {
            entry.header.flags = entry.header.flags | flags::HAS_PARAMS;
        }
        assert(entry.model() == settled(known, header));
        proof {
            lemma_map_values_len(stored, |partial: Partial| partial.model());
        }
        if entry.received != count {
            self.partials.insert(header.seq, entry);
            proof {
                assert(self.model().partials =~= before.partials.insert(
                    header.seq,
                    settled(known, header),
                ));
                assert(self.partials@.dom() =~= stored.dom().insert(header.seq));
            }
            self.evict_stale();
            return None;
        }
        assert(holes(entry.model().fragments) == 0);
        let data = entry.join();
        let ghost completed = self.completed@;
        let key: (u64, u16) = (header.seq, header.fragment_count);
        if !delivered {
            self.completed.push(key);
        }
        proof {
            completed.lemma_push_to_set_commute(key);
            assert(self.model().completed =~= before.completed.insert(key));
            assert(self.model().partials =~= before.partials.remove(header.seq));
            assert(self.partials@.dom() =~= stored.dom().remove(header.seq));
        }
        self.evict_stale();
        Some(Frame { header: entry.header, data })
    }

    /// Whether the frame has come out, as far as that is remembered.
    fn has_completed(&self, seq: u64, count: u16) -> (found: bool)
        ensures
            found == self.completed@.to_set().contains((seq, count)),
    {
        let mut i: usize = 0;
        while i < self.completed.len()
            invariant
                i <= self.completed@.len(),
                forall|k: int| 0 <= k < i ==> #[trigger] self.completed@[k] != (seq, count),
            decreases self.completed@.len() - i,
        {
            let key: (u64, u16) = self.completed[i];
            if key.0 == seq && key.1 == count {
                assert(self.completed@[i as int] == (seq, count));
                return true;
            }
            i = i + 1;
        }
        false
    }

    /// Forgets the frames that came out and are older than `limit`.
    fn forget_completed(&mut self, limit: u64)
        ensures
            final(self).completed@.to_set() == old(self).completed@.to_set().filter(
                |key: (u64, u16)| key.0 >= limit,
            ),
            final(self).partials@ == old(self).partials@,
            final(self).newest_seq == old(self).newest_seq,
            final(self).repaired == old(self).repaired,
            final(self).dropped == old(self).dropped,
    {
        let ghost before = self.completed@;
        let ghost recent = |key: (u64, u16)| key.0 >= limit;
        let mut kept: Vec<(u64, u16)> = Vec::new();
        let mut i: usize = 0;
        assert(kept@.to_set() =~= before.take(0).to_set().filter(recent));
        while i < self.completed.len()
            invariant
                i <= self.completed@.len(),
                self.completed@ == before,
                *self == *old(self),
                recent == (|key: (u64, u16)| key.0 >= limit),
                kept@.to_set() == before.take(i as int).to_set().filter(recent),
            decreases self.completed@.len() - i,
        {
            let key: (u64, u16) = self.completed[i];
            proof {
                assert(before.take(i + 1) =~= before.take(i as int).push(key));
                before.take(i as int).lemma_push_to_set_commute(key);
                kept@.lemma_push_to_set_commute(key);
            }
            if key.0 >= limit {
                kept.push(key);
            }
            assert(kept@.to_set() =~= before.take(i + 1).to_set().filter(recent));
            i = i + 1;
        }
        assert(before.take(i as int) =~= before);
        self.completed = kept;
    }

    /// Gives up every frame that is too old.
    fn evict_stale(&mut self)
        requires
            old(self).stored(),
            old(self).dropped + old(self).partials@.len() <= u64::MAX,
        ensures
            final(self).stored(),
            final(self).model() == evicted(old(self).model()),
    {
        let ghost view = self.model();
        let limit: u64 = if self.newest_seq < STALE_DISTANCE {
            0
        } else {
            self.newest_seq - STALE_DISTANCE
        };
        let lost: u64 = self.forget_partials(limit);
        self.dropped = self.dropped + lost;
        self.forget_completed(limit);
        assert(self.model() =~= evicted(view));
    }

    /// Forgets the frames older than `limit` that are not complete. Returns how
    /// many of them never came out.
    fn forget_partials(&mut self, limit: u64) -> (lost: u64)
        requires
            old(self).stored(),
            old(self).dropped + old(self).partials@.len() <= u64::MAX,
        ensures
            final(self).stored(),
            final(self).model() == (ReassemblerView {
                partials: old(self).model().partials.restrict(
                    Set::new(|seq: u64| seq >= limit),
                ),
                ..old(self).model()
            }),
            lost == abandoned(
                old(self).model().partials,
                old(self).model().completed,
                limit,
            ).len(),
            old(self).dropped + lost <= u64::MAX,
    {
        let ghost before = self.partials@;
        let ghost view = self.model();
        let ghost gone = abandoned(view.partials, view.completed, limit);
        let seqs = held_seqs(&self.partials);
        let mut lost: u64 = 0;
        let mut i: usize = 0;
        proof {
            lemma_map_values_len(before, |partial: Partial| partial.model());
            vstd::set_lib::lemma_len_subset(gone, view.partials.dom());
        }
        while i < seqs.len()
            invariant
                i <= seqs@.len(),
                seqs@.to_set() == before.dom(),
                self.completed@ == old(self).completed@,
                self.newest_seq == old(self).newest_seq,
                self.repaired == old(self).repaired,
                self.dropped == old(self).dropped,
                self.partials@.dom().finite(),
                view.completed == self.model().completed,
                lost + abandoned(self.model().partials, view.completed, limit).len() == gone.len(),
                gone.len() <= u64::MAX,
                forall|seq: u64| #[trigger]
                    self.partials@.contains_key(seq) ==> before.contains_key(seq)
                        && self.partials@[seq] == before[seq],
                forall|seq: u64|
                    before.contains_key(seq) && seq >= limit ==> #[trigger] self.partials@.contains_key(
                        seq,
                    ),
                forall|k: int|
                    0 <= k < i && (#[trigger] seqs@[k]) < limit ==> !self.partials@.contains_key(
                        seqs@[k],
                    ),
            decreases seqs@.len() - i,
        {
            let seq: u64 = seqs[i];
            if seq < limit {
                let ghost now = self.model().partials;
                let ghost held = self.partials@;
                match self.partials.remove(&seq) {
                    Some(partial) => {
                        proof {
                            assert(self.model().partials =~= now.remove(seq));
                            lemma_map_values_len(held, |partial: Partial| partial.model());
                            lemma_abandoned_without(now, view.completed, seq, limit);
                            assert(now[seq].header == partial.header);
                        }
                        if !self.has_completed(seq, partial.header.fragment_count) {
                            lost = lost + 1;
                        }
                    },
                    None => {
                        assert(self.partials@ =~= held);
                    },
                }
            }
            i = i + 1;
        }
        proof {
            assert forall|seq: u64| before.contains_key(seq) && seq < limit implies !(
            #[trigger] self.partials@.contains_key(seq)) by {
                assert(seqs@.to_set().contains(seq));
                let k = choose|k: int| 0 <= k < seqs@.len() && seqs@[k] == seq;
                assert(seqs@[k] < limit);
            }
            assert(abandoned(self.model().partials, view.completed, limit)
                =~= Set::<u64>::empty());
            assert(self.model().partials =~= view.partials.restrict(
                Set::new(|seq: u64| seq >= limit),
            ));
        }
        lost
    }
}

/// Giving up one frame leaves the others to be given up.
proof fn lemma_abandoned_without(
    partials: Map<u64, PartialView>,
    completed: Set<(u64, u16)>,
    seq: u64,
    limit: u64,
)
    requires
        partials.dom().finite(),
        partials.contains_key(seq),
        seq < limit,
    ensures
        abandoned(partials, completed, limit).len() == abandoned(
            partials.remove(seq),
            completed,
            limit,
        ).len() + if completed.contains((seq, partials[seq].header.fragment_count)) {
            0int
        } else {
            1
        },
{
    let all = abandoned(partials, completed, limit);
    let rest = abandoned(partials.remove(seq), completed, limit);
    if completed.contains((seq, partials[seq].header.fragment_count)) {
        assert(rest =~= all);
    } else {
        assert(rest =~= all.remove(seq));
    }
}

proof fn lemma_map_values_len<A, B>(m: Map<u64, A>, f: spec_fn(A) -> B)
    ensures
        m.map_values(f).len() == m.len(),
        m.map_values(f).dom() == m.dom(),
{
    assert(m.map_values(f).dom() =~= m.dom());
}

/// The sequence numbers of the frames that are not complete yet.
fn held_seqs(partials: &HashMap<u64, Partial>) -> (seqs: Vec<u64>)
    ensures
        seqs@.to_set() == partials@.dom(),
{
    let mut seqs: Vec<u64> = Vec::new();
    for seq in it: partials.keys()
        invariant
            seqs@ == it.seq().unref().take(it.index()),
            it.seq().unref().to_set() == partials@.dom(),
            it.index() == it.seq().len() ==> seqs@.to_set() == partials@.dom(),
    {
        seqs.push(*seq);
        assert(seqs@ =~= it.seq().unref().take(it.index() + 1));
        assert(it.index() + 1 == it.seq().len() ==> seqs@ =~= it.seq().unref());
    }
    seqs
}

/// The fragments of a frame that parity starting at `first` covers.
pub open spec fn group_at(blocks: Seq<Seq<u8>>, first: int) -> Seq<Seq<u8>> {
    blocks.subrange(first, group_end(blocks.len(), first))
}

/// Whether a datagram carries a piece of the frame made of `blocks`: one of the
/// blocks behind its length, or the parity of one of its groups behind a level.
pub open spec fn carries(blocks: Seq<Seq<u8>>, header: Header, body: Seq<u8>) -> bool {
    let first = header.fragment_index as int;
    &&& header.fragment_count == blocks.len()
    &&& header.in_range()
    &&& if header.flagged(flags::PARITY) {
        &&& body.len() > 0
        &&& body[0] == 0 ==> body.skip(1) == fec::parity_of(0, group_at(blocks, first))
        &&& body[0] == 1 ==> body.skip(1) == fec::parity_of(1, group_at(blocks, first))
    } else {
        fec::fragment_opening(body) == Some(blocks[first])
    }
}

/// Whether everything that is held of a frame is as it was sent.
pub open spec fn faithful(entry: PartialView, blocks: Seq<Seq<u8>>) -> bool {
    &&& fec::true_to(entry.fragments, blocks)
    &&& forall|s: u16|
        entry.p.contains_key(s) && s < blocks.len() ==> (#[trigger] entry.p[s]) == fec::parity_of(
            0,
            group_at(blocks, s as int),
        )
    &&& forall|s: u16|
        entry.q.contains_key(s) && s < blocks.len() ==> (#[trigger] entry.q[s]) == fec::parity_of(
            1,
            group_at(blocks, s as int),
        )
}

/// Whether all that is held in `b` is also held in `a`.
pub open spec fn holds_all_of(a: Seq<Option<Seq<u8>>>, b: Seq<Option<Seq<u8>>>) -> bool {
    &&& a.len() == b.len()
    &&& forall|i: int| 0 <= i < b.len() && (#[trigger] b[i]) is Some ==> a[i] is Some
}

/// How many parity blocks are held of the group at `first`.
pub open spec fn parity_held(entry: PartialView, first: int) -> int {
    (if block_at(entry.p, first) is Some {
        1int
    } else {
        0
    }) + (if block_at(entry.q, first) is Some {
        1int
    } else {
        0
    })
}

/// Whether the group at `first` is whole, or can be made whole: no more of its
/// fragments are missing than parity blocks of it are held.
pub open spec fn enough(entry: PartialView, first: int) -> bool {
    let end = group_end(entry.fragments.len(), first);
    holes(entry.fragments.subrange(first, end)) <= parity_held(entry, first)
}

/// Whether every group of a frame is whole or can be made whole.
pub open spec fn recoverable(entry: PartialView) -> bool {
    forall|first: int|
        0 <= first < entry.fragments.len() && first % fec::GROUP as int == 0 ==> #[trigger] enough(
            entry,
            first,
        )
}

proof fn lemma_fewer_holes(a: Seq<Option<Seq<u8>>>, b: Seq<Option<Seq<u8>>>)
    requires
        holds_all_of(a, b),
    ensures
        holes(a) <= holes(b),
    decreases a.len(),
{
    if a.len() > 0 {
        assert forall|i: int| 0 <= i < b.drop_last().len() && (
        #[trigger] b.drop_last()[i]) is Some implies a.drop_last()[i] is Some by {
            assert(b[i] is Some);
        }
        lemma_fewer_holes(a.drop_last(), b.drop_last());
        assert(b[b.len() - 1] is Some ==> a[a.len() - 1] is Some);
    }
}

/// Rebuilding one group of a faithfully held frame fills it with what was sent,
/// if its parity is enough, and leaves the rest alone.
proof fn lemma_group_repair_is_exact(
    entry: PartialView,
    current: Seq<Option<Seq<u8>>>,
    blocks: Seq<Seq<u8>>,
    first: int,
)
    requires
        fec::fits(blocks),
        faithful(entry, blocks),
        fec::true_to(current, blocks),
        holds_all_of(current, entry.fragments),
        0 <= first < blocks.len(),
    ensures
        ({
            let after = group_repaired(current, first, entry.p, entry.q);
            &&& fec::true_to(after, blocks)
            &&& holds_all_of(after, current)
            &&& enough(entry, first) ==> forall|i: int|
                first <= i < group_end(blocks.len(), first) ==> (#[trigger] after[i]) is Some
        }),
{
    let end = group_end(blocks.len(), first);
    let window = current.subrange(first, end);
    let group = group_at(blocks, first);
    let p = block_at(entry.p, first);
    let q = block_at(entry.q, first);
    let after = group_repaired(current, first, entry.p, entry.q);
    assert(fec::true_to(window, group)) by {
        assert forall|i: int| 0 <= i < window.len() && (
        #[trigger] window[i]) is Some implies window[i] == Some(group[i]) by {
            assert(current[first + i] is Some);
        }
    }
    assert forall|i: int| 0 <= i < group.len() implies (#[trigger] group[i]).len() <= fec::BLOCK by {
        assert(group[i] == blocks[first + i]);
    }
    if p is Some {
        assert(entry.p.contains_key(first as u16));
        assert(entry.p[first as u16] == fec::parity_of(0, group));
    }
    if q is Some {
        assert(entry.q.contains_key(first as u16));
        assert(entry.q[first as u16] == fec::parity_of(1, group));
    }
    let old_window = entry.fragments.subrange(first, end);
    assert(holds_all_of(window, old_window)) by {
        assert forall|i: int| 0 <= i < old_window.len() && (
        #[trigger] old_window[i]) is Some implies window[i] is Some by {
            assert(entry.fragments[first + i] is Some);
        }
    }
    lemma_fewer_holes(window, old_window);
    lemma_no_holes(window);
    let missing = holes(window);
    if (missing == 1 && (p is Some || q is Some)) || (missing == 2 && p is Some && q is Some) {
        fec::law_recovery_is_exact(group, window, p, q);
        assert(after =~= current.take(first) + fec::complete(group) + current.skip(end));
        assert forall|i: int| 0 <= i < after.len() && (#[trigger] after[i]) is Some implies after[i]
            == Some(blocks[i]) by {
            if i < first || i >= end {
                assert(after[i] == current[i]);
            } else {
                assert(after[i] == Some(group[i - first]));
            }
        }
        assert forall|i: int| 0 <= i < current.len() && (
        #[trigger] current[i]) is Some implies after[i] is Some by {
            if i < first || i >= end {
                assert(after[i] == current[i]);
            } else {
                assert(after[i] == Some(group[i - first]));
            }
        }
        assert forall|i: int| first <= i < end implies (#[trigger] after[i]) is Some by {
            assert(after[i] == Some(group[i - first]));
        }
    } else {
        assert(after == current);
        if enough(entry, first) {
            assert(missing == 0);
            assert forall|i: int| first <= i < end implies (#[trigger] after[i]) is Some by {
                assert(window[i - first] is Some);
            }
        }
    }
}

proof fn lemma_repair_is_exact(entry: PartialView, blocks: Seq<Seq<u8>>, n: int)
    requires
        fec::fits(blocks),
        faithful(entry, blocks),
        0 <= n <= blocks.len(),
    ensures
        ({
            let after = repaired_before(entry.fragments, n, entry.p, entry.q);
            &&& fec::true_to(after, blocks)
            &&& holds_all_of(after, entry.fragments)
            &&& forall|first: int, i: int|
                0 <= first < n && first <= i < group_end(blocks.len(), first) && #[trigger] enough(
                    entry,
                    first,
                ) ==> (#[trigger] after[i]) is Some
        }),
    decreases n,
{
    if n > 0 {
        let before = repaired_before(entry.fragments, n - 1, entry.p, entry.q);
        let after = repaired_before(entry.fragments, n, entry.p, entry.q);
        lemma_repair_is_exact(entry, blocks, n - 1);
        lemma_group_repair_is_exact(entry, before, blocks, n - 1);
        assert forall|i: int| 0 <= i < entry.fragments.len() && (
        #[trigger] entry.fragments[i]) is Some implies after[i] is Some by {
            assert(before[i] is Some);
        }
        assert forall|first: int, i: int|
            0 <= first < n && first <= i < group_end(blocks.len(), first) && #[trigger] enough(
                entry,
                first,
            ) implies (#[trigger] after[i]) is Some by {
            if first < n - 1 {
                assert(before[i] is Some);
            }
        }
    }
}

/// Whatever order the datagrams of a frame come in, what is held of it stays as
/// it was sent, parity rebuilds only what was sent, and the frame is whole once
/// every group is whole or can be made whole.
pub proof fn law_repair_is_exact(entry: PartialView, header: Header, blocks: Seq<Seq<u8>>)
    requires
        fec::fits(blocks),
        faithful(entry, blocks),
    ensures
        faithful(settled(entry, header), blocks),
        holds_all_of(settled(entry, header).fragments, entry.fragments),
        recoverable(entry) ==> holes(settled(entry, header).fragments) == 0,
        holes(settled(entry, header).fragments) == 0 ==> data_of(settled(entry, header).fragments)
            == chunks::joined(blocks),
{
    let n = blocks.len() as int;
    let after = settled(entry, header).fragments;
    lemma_repair_is_exact(entry, blocks, n);
    lemma_no_holes(after);
    if recoverable(entry) {
        assert forall|i: int| 0 <= i < after.len() implies (#[trigger] after[i]) is Some by {
            let first = i - i % fec::GROUP as int;
            assert(first % fec::GROUP as int == 0);
            assert(enough(entry, first));
            assert(first <= i < group_end(blocks.len(), first));
        }
    }
    if holes(after) == 0 {
        assert(after.map_values(|fragment: Option<Seq<u8>>| fragment->0) =~= blocks) by {
            assert forall|i: int| 0 <= i < after.len() implies (#[trigger] after[i])->0
                == blocks[i] by {
                assert(after[i] is Some);
            }
        }
    }
}

/// A frame's own datagram is never malformed, and taking it in keeps what is held
/// as it was sent.
pub proof fn law_absorbing_stays_faithful(
    entry: PartialView,
    header: Header,
    body: Seq<u8>,
    blocks: Seq<Seq<u8>>,
)
    requires
        faithful(entry, blocks),
        carries(blocks, header, body),
    ensures
        absorbed(entry, header, body) matches Some(known) && faithful(known, blocks)
            && holds_all_of(known.fragments, entry.fragments) && entry.p.dom().subset_of(
            known.p.dom(),
        ) && entry.q.dom().subset_of(known.q.dom()),
{
    let known = absorbed(entry, header, body)->0;
    assert(fec::true_to(known.fragments, blocks)) by {
        assert forall|i: int| 0 <= i < known.fragments.len() && (
        #[trigger] known.fragments[i]) is Some implies known.fragments[i] == Some(blocks[i]) by {
            if known.fragments[i] != Some(blocks[i]) {
                assert(entry.fragments[i] is Some);
            }
        }
    }
}

/// A frame as its sender describes it in every one of its datagrams.
pub struct Sent {
    pub seq: u64,
    pub pts_micros: u64,
    pub keyframe: bool,
    pub has_params: bool,
    pub blocks: Seq<Seq<u8>>,
}

impl Sent {
    /// Whether a header is one of this frame's.
    pub open spec fn heads(self, header: Header) -> bool {
        &&& header.seq == self.seq
        &&& header.pts_micros == self.pts_micros
        &&& header.flagged(flags::KEYFRAME) == self.keyframe
        &&& header.flagged(flags::HAS_PARAMS) == self.has_params
    }

    /// Whether a datagram is one of this frame's.
    pub open spec fn owns(self, datagram: (Header, Seq<u8>)) -> bool {
        self.heads(datagram.0) && carries(self.blocks, datagram.0, datagram.1)
    }

    /// Whether all that is known of the frame is true.
    pub open spec fn known_truly(self, state: ReassemblerView) -> bool {
        state.partials.contains_key(self.seq) ==> {
            let entry = state.partials[self.seq];
            faithful(entry, self.blocks) && self.heads(entry.header)
        }
    }

    /// Whether the frame may come out: it is not too old, and nothing untrue is
    /// known of it.
    pub open spec fn awaited(self, state: ReassemblerView) -> bool {
        &&& self.known_truly(state)
        &&& self.seq + STALE_DISTANCE >= state.newest_seq
    }

    /// Whether the frame has come out.
    pub open spec fn has_come_out(self, state: ReassemblerView) -> bool {
        state.completed.contains((self.seq, self.blocks.len() as u16))
    }

    /// Whether a frame that came out of reassembly is this one.
    pub open spec fn is(self, frame: FrameView) -> bool {
        self.heads(frame.header) && frame.data == chunks::joined(self.blocks)
    }
}

proof fn lemma_params_flag(f: u8)
    ensures
        (f | flags::HAS_PARAMS) & flags::KEYFRAME == f & flags::KEYFRAME,
        (f | flags::HAS_PARAMS) & flags::HAS_PARAMS != 0,
{
    assert((f | 0x02u8) & 0x01u8 == f & 0x01u8 && (f | 0x02u8) & 0x02u8 != 0) by (bit_vector);
}

/// What a datagram makes of the frame it belongs to.
proof fn lemma_arrival(state: ReassemblerView, sent: Sent, header: Header, body: Seq<u8>)
    requires
        fec::fits(sent.blocks),
        sent.owns((header, body)),
        sent.awaited(state),
    ensures
        ({
            let entry = entry_for(state.partials, header);
            let known = absorbed(entry, header, body)->0;
            let after = settled(known, header);
            let (now, frame) = arrived(state, header, body);
            &&& absorbed(entry, header, body) is Some
            &&& faithful(entry, sent.blocks)
            &&& faithful(known, sent.blocks)
            &&& faithful(after, sent.blocks)
            &&& frame is Some <==> holes(after.fragments) == 0
            &&& sent.awaited(now)
            &&& frame is Some ==> sent.has_come_out(now) && sent.is(frame->0)
                && !now.partials.contains_key(sent.seq)
            &&& frame is None ==> now.partials.contains_key(sent.seq)
                && now.partials[sent.seq] == after
            &&& sent.has_come_out(state) ==> sent.has_come_out(now) && now.repaired
                == state.repaired
            &&& !sent.has_come_out(state) ==> now.repaired == state.repaired + holes(
                known.fragments,
            ) - holes(after.fragments)
        }),
{
    let entry = entry_for(state.partials, header);
    assert(faithful(entry, sent.blocks));
    law_absorbing_stays_faithful(entry, header, body, sent.blocks);
    let known = absorbed(entry, header, body)->0;
    law_repair_is_exact(known, header, sent.blocks);
    lemma_params_flag(entry.header.flags);
}

/// A frame's datagram keeps what is known of the frame true. If it completes the
/// frame, the frame is the one that was sent; and it does so whenever what is
/// held with it can be made whole.
pub proof fn law_completed_frames_are_exact(
    state: ReassemblerView,
    sent: Sent,
    header: Header,
    body: Seq<u8>,
)
    requires
        fec::fits(sent.blocks),
        sent.owns((header, body)),
        sent.awaited(state),
    ensures
        sent.known_truly(arrived(state, header, body).0),
        arrived(state, header, body).1 matches Some(frame) ==> sent.is(frame),
        arrived(state, header, body).1 is Some ==> sent.has_come_out(
            arrived(state, header, body).0,
        ),
        arrived(state, header, body).1 is None <==> arrived(
            state,
            header,
            body,
        ).0.partials.contains_key(sent.seq),
        absorbed(entry_for(state.partials, header), header, body) matches Some(known) && (
        recoverable(known) ==> arrived(state, header, body).1 is Some),
{
    lemma_arrival(state, sent, header, body);
    let entry = entry_for(state.partials, header);
    law_repair_is_exact(absorbed(entry, header, body)->0, header, sent.blocks);
}

/// Once a frame has come out, nothing that still arrives of it is counted: not as
/// rebuilt, and not as dropped either, now or when it is too old. Its number is
/// remembered until then, whatever else arrives.
pub proof fn law_delivered_frames_are_counted_once(
    state: ReassemblerView,
    delivered: Header,
    header: Header,
    body: Seq<u8>,
    limit: u64,
)
    requires
        state.valid(),
        state.has_delivered(delivered),
    ensures
        ({
            let after = arrived(state, header, body).0;
            &&& after.has_delivered(delivered) || delivered.seq < cutoff(after.newest_seq)
            &&& header.seq == delivered.seq && header.fragment_count == delivered.fragment_count
                ==> after.repaired == state.repaired
            &&& state.partials[delivered.seq].header.fragment_count == delivered.fragment_count
                ==> !abandoned(state.partials, state.completed, limit).contains(delivered.seq)
        }),
{
}

/// The frames that count as dropped are those that have become too old and never
/// came out. They are counted with the next well-formed datagram that is not itself
/// too old.
pub proof fn law_only_lost_frames_are_dropped(
    state: ReassemblerView,
    header: Header,
    body: Seq<u8>,
)
    requires
        state.partials.dom().finite(),
    ensures
        ({
            let after = arrived(state, header, body).0;
            let known = absorbed(entry_for(state.partials, header), header, body);
            let limit = cutoff(after.newest_seq);
            let lost = abandoned(state.partials, state.completed, limit).remove(header.seq);
            after.dropped == state.dropped + if header.seq < cutoff(state.newest_seq)
                || known is None {
                0
            } else {
                lost.len()
            }
        }),
{
    let limit = cutoff(arrived(state, header, body).0.newest_seq);
    let lost = abandoned(state.partials, state.completed, limit).remove(header.seq);
    let entry = entry_for(state.partials, header);
    match absorbed(entry, header, body) {
        Some(known) => {
            if header.seq >= cutoff(state.newest_seq) {
                let kept = state.partials.insert(header.seq, settled(known, header));
                let gone = state.partials.remove(header.seq);
                let key = (header.seq, header.fragment_count);
                assert(abandoned(kept, state.completed, limit) =~= lost);
                assert(abandoned(gone, state.completed.insert(key), limit) =~= lost);
            }
        },
        None => {},
    }
}

/// A datagram changes nothing of any frame but its own, except that a frame that
/// has become too old is given up.
pub proof fn law_other_frames_are_left_alone(
    state: ReassemblerView,
    header: Header,
    body: Seq<u8>,
    other: u64,
)
    requires
        other != header.seq,
    ensures
        ({
            let after = arrived(state, header, body).0;
            &&& after.partials.contains_key(other) ==> state.partials.contains_key(other)
                && after.partials[other] == state.partials[other]
            &&& state.partials.contains_key(other) && other >= cutoff(after.newest_seq)
                ==> after.partials.contains_key(other)
        }),
{
}

/// Nothing too old is kept, and a datagram of a frame that is too old changes
/// nothing at all.
pub proof fn law_stale_frames_stay_gone(state: ReassemblerView, header: Header, body: Seq<u8>)
    ensures
        header.seq < cutoff(state.newest_seq) ==> arrived(state, header, body) == (
            state,
            None::<FrameView>,
        ),
        arrived(state, header, body).1 is Some ==> forall|seq: u64| #[trigger]
            arrived(state, header, body).0.partials.contains_key(seq) ==> seq >= cutoff(
                arrived(state, header, body).0.newest_seq,
            ),
        arrived(state, header, body).0.newest_seq >= state.newest_seq,
{
}

/// An incomplete frame never comes out: a frame comes out only when every one of
/// its fragments was received or rebuilt.
pub proof fn law_incomplete_frames_never_emit(state: ReassemblerView, header: Header, body: Seq<u8>)
    requires
        arrived(state, header, body).1 is Some,
    ensures
        absorbed(entry_for(state.partials, header), header, body) matches Some(known) && forall|
            i: int,
        |
            0 <= i < settled(known, header).fragments.len() ==> (#[trigger] settled(
                known,
                header,
            ).fragments[i]) is Some,
{
    let known = absorbed(entry_for(state.partials, header), header, body)->0;
    lemma_no_holes(settled(known, header).fragments);
}

/// The state after several datagrams.
pub open spec fn after_all(state: ReassemblerView, arrivals: Seq<(Header, Seq<u8>)>) ->
    ReassemblerView
    decreases arrivals.len(),
{
    if arrivals.len() == 0 {
        state
    } else {
        arrived(
            after_all(state, arrivals.drop_last()),
            arrivals.last().0,
            arrivals.last().1,
        ).0
    }
}

/// The frame that datagram `n` of several completes, if it does.
pub open spec fn outcome(state: ReassemblerView, arrivals: Seq<(Header, Seq<u8>)>, n: int) ->
    Option<FrameView> {
    arrived(after_all(state, arrivals.take(n)), arrivals[n].0, arrivals[n].1).1
}

/// Whether a datagram is the plain one of fragment `i`.
pub open spec fn is_data(datagram: (Header, Seq<u8>), i: int) -> bool {
    !datagram.0.flagged(flags::PARITY) && datagram.0.fragment_index == i
}

/// Whether a datagram is parity block `level` of the group at `first`.
pub open spec fn is_parity(datagram: (Header, Seq<u8>), level: u8, first: int) -> bool {
    &&& datagram.0.flagged(flags::PARITY)
    &&& datagram.0.fragment_index == first
    &&& datagram.1.len() > 0
    &&& datagram.1[0] == level
}

/// What several datagrams of a frame hold of it between them.
pub open spec fn gathered(sent: Sent, arrivals: Seq<(Header, Seq<u8>)>) -> PartialView {
    PartialView {
        header: arrivals[0].0,
        fragments: Seq::new(
            sent.blocks.len(),
            |i: int|
                if exists|k: int|
                    0 <= k < arrivals.len() && is_data(#[trigger] arrivals[k], i) {
                    Some(sent.blocks[i])
                } else {
                    None
                },
        ),
        p: Map::new(
            |s: u16|
                exists|k: int|
                    0 <= k < arrivals.len() && is_parity(#[trigger] arrivals[k], 0, s as int),
            |s: u16| fec::parity_of(0, group_at(sent.blocks, s as int)),
        ),
        q: Map::new(
            |s: u16|
                exists|k: int|
                    0 <= k < arrivals.len() && is_parity(#[trigger] arrivals[k], 1, s as int),
            |s: u16| fec::parity_of(1, group_at(sent.blocks, s as int)),
        ),
    }
}

/// Whether a datagram has been taken into what is known of its frame.
spec fn taken_in(entry: PartialView, datagram: (Header, Seq<u8>)) -> bool {
    let at = datagram.0.fragment_index;
    if datagram.0.flagged(flags::PARITY) {
        &&& datagram.1.len() > 0 && datagram.1[0] == 0 ==> entry.p.contains_key(at)
        &&& datagram.1.len() > 0 && datagram.1[0] == 1 ==> entry.q.contains_key(at)
    } else {
        entry.fragments[at as int] is Some
    }
}

proof fn lemma_enough_grows(a: PartialView, b: PartialView, first: int)
    requires
        holds_all_of(a.fragments, b.fragments),
        b.p.dom().subset_of(a.p.dom()),
        b.q.dom().subset_of(a.q.dom()),
        0 <= first < a.fragments.len(),
        enough(b, first),
    ensures
        enough(a, first),
{
    let end = group_end(a.fragments.len(), first);
    let (wa, wb) = (a.fragments.subrange(first, end), b.fragments.subrange(first, end));
    assert forall|i: int| 0 <= i < wb.len() && (#[trigger] wb[i]) is Some implies wa[i] is Some by {
        assert(b.fragments[first + i] is Some);
    }
    lemma_fewer_holes(wa, wb);
    if block_at(b.p, first) is Some {
        assert(b.p.dom().contains(first as u16));
        assert(a.p.dom().contains(first as u16));
    }
    if block_at(b.q, first) is Some {
        assert(b.q.dom().contains(first as u16));
        assert(a.q.dom().contains(first as u16));
    }
}

/// What is known holds all that the datagrams held between them.
proof fn lemma_known_holds_gathered(
    known: PartialView,
    sent: Sent,
    arrivals: Seq<(Header, Seq<u8>)>,
)
    requires
        known.fragments.len() == sent.blocks.len(),
        forall|k: int| 0 <= k < arrivals.len() ==> taken_in(known, #[trigger] arrivals[k]),
        recoverable(gathered(sent, arrivals)),
    ensures
        recoverable(known),
{
    let all = gathered(sent, arrivals);
    assert(holds_all_of(known.fragments, all.fragments)) by {
        assert forall|i: int| 0 <= i < all.fragments.len() && (
        #[trigger] all.fragments[i]) is Some implies known.fragments[i] is Some by {
            let k = choose|k: int|
                0 <= k < arrivals.len() && is_data(#[trigger] arrivals[k], i);
            assert(taken_in(known, arrivals[k]));
        }
    }
    assert forall|s: u16| all.p.dom().contains(s) implies known.p.dom().contains(s) by {
        let k = choose|k: int|
            0 <= k < arrivals.len() && is_parity(#[trigger] arrivals[k], 0, s as int);
        assert(taken_in(known, arrivals[k]));
    }
    assert forall|s: u16| all.q.dom().contains(s) implies known.q.dom().contains(s) by {
        let k = choose|k: int|
            0 <= k < arrivals.len() && is_parity(#[trigger] arrivals[k], 1, s as int);
        assert(taken_in(known, arrivals[k]));
    }
    assert forall|first: int|
        0 <= first < known.fragments.len() && first % fec::GROUP as int
            == 0 implies #[trigger] enough(known, first) by {
        assert(enough(all, first));
        lemma_enough_grows(known, all, first);
    }
}

/// Nothing that was taken in is lost again by a further datagram of the frame.
proof fn lemma_taken_in_stays(
    entry: PartialView,
    header: Header,
    body: Seq<u8>,
    blocks: Seq<Seq<u8>>,
    datagram: (Header, Seq<u8>),
)
    requires
        fec::fits(blocks),
        faithful(entry, blocks),
        carries(blocks, header, body),
        carries(blocks, datagram.0, datagram.1),
        taken_in(entry, datagram) || datagram == (header, body),
    ensures
        absorbed(entry, header, body) matches Some(known) && taken_in(known, datagram) && taken_in(
            settled(known, header),
            datagram,
        ),
{
    law_absorbing_stays_faithful(entry, header, body, blocks);
    let known = absorbed(entry, header, body)->0;
    law_repair_is_exact(known, header, blocks);
    if taken_in(entry, datagram) {
        let at = datagram.0.fragment_index;
        if datagram.0.flagged(flags::PARITY) {
            if datagram.1[0] == 0 {
                assert(entry.p.dom().contains(at));
            } else if datagram.1[0] == 1 {
                assert(entry.q.dom().contains(at));
            }
        } else {
            assert(entry.fragments[at as int] is Some);
        }
    }
}

/// As long as the frame has not come out, all that arrived of it is taken in.
proof fn lemma_arrivals(
    state: ReassemblerView,
    sent: Sent,
    arrivals: Seq<(Header, Seq<u8>)>,
    n: int,
)
    requires
        fec::fits(sent.blocks),
        sent.awaited(state),
        forall|k: int| 0 <= k < arrivals.len() ==> sent.owns(#[trigger] arrivals[k]),
        0 <= n <= arrivals.len(),
        forall|k: int| 0 <= k < n ==> (#[trigger] outcome(state, arrivals, k)) is None,
    ensures
        ({
            let now = after_all(state, arrivals.take(n));
            &&& sent.awaited(now)
            &&& n > 0 ==> now.partials.contains_key(sent.seq)
            &&& forall|k: int|
                0 <= k < n ==> taken_in(now.partials[sent.seq], #[trigger] arrivals[k])
        }),
    decreases n,
{
    if n > 0 {
        lemma_arrivals(state, sent, arrivals, n - 1);
        let before = after_all(state, arrivals.take(n - 1));
        let (header, body) = arrivals[n - 1];
        assert(arrivals.take(n).drop_last() =~= arrivals.take(n - 1));
        assert(arrivals.take(n).last() == arrivals[n - 1]);
        assert(sent.owns(arrivals[n - 1]));
        assert(outcome(state, arrivals, n - 1) is None);
        lemma_arrival(before, sent, header, body);
        lemma_takes_in_all(before, sent, arrivals, n - 1);
    } else {
        assert(arrivals.take(0) =~= seq![]);
    }
}

/// What is known with datagram `n` holds it and all that came before it.
proof fn lemma_takes_in_all(
    before: ReassemblerView,
    sent: Sent,
    arrivals: Seq<(Header, Seq<u8>)>,
    n: int,
)
    requires
        fec::fits(sent.blocks),
        0 <= n < arrivals.len(),
        sent.awaited(before),
        n > 0 ==> before.partials.contains_key(sent.seq),
        forall|k: int| 0 <= k < arrivals.len() ==> sent.owns(#[trigger] arrivals[k]),
        forall|k: int| 0 <= k < n ==> taken_in(before.partials[sent.seq], #[trigger] arrivals[k]),
    ensures
        ({
            let (header, body) = arrivals[n];
            let known = absorbed(entry_for(before.partials, header), header, body)->0;
            &&& forall|k: int| 0 <= k <= n ==> taken_in(known, #[trigger] arrivals[k])
            &&& forall|k: int|
                0 <= k <= n ==> taken_in(settled(known, header), #[trigger] arrivals[k])
        }),
{
    let (header, body) = arrivals[n];
    assert(sent.owns(arrivals[n]));
    let entry = entry_for(before.partials, header);
    let known = absorbed(entry, header, body)->0;
    assert(faithful(entry, sent.blocks));
    assert forall|k: int| 0 <= k <= n implies taken_in(known, #[trigger] arrivals[k]) && taken_in(
        settled(known, header),
        arrivals[k],
    ) by {
        assert(sent.owns(arrivals[k]));
        lemma_taken_in_stays(entry, header, body, sent.blocks, arrivals[k]);
    }
}

/// If the frame has not come out before the last datagram, and all that arrived
/// can be made whole, the last one brings it out.
proof fn lemma_last_arrival(
    state: ReassemblerView,
    sent: Sent,
    arrivals: Seq<(Header, Seq<u8>)>,
)
    requires
        fec::fits(sent.blocks),
        sent.awaited(state),
        forall|k: int| 0 <= k < arrivals.len() ==> sent.owns(#[trigger] arrivals[k]),
        arrivals.len() > 0,
        recoverable(gathered(sent, arrivals)),
        forall|k: int|
            0 <= k < arrivals.len() - 1 ==> (#[trigger] outcome(state, arrivals, k)) is None,
    ensures
        outcome(state, arrivals, arrivals.len() - 1) is Some,
{
    let n = arrivals.len() - 1;
    lemma_arrivals(state, sent, arrivals, n);
    let before = after_all(state, arrivals.take(n));
    let (header, body) = arrivals[n];
    assert(sent.owns(arrivals[n]));
    lemma_takes_in_all(before, sent, arrivals, n);
    lemma_arrival(before, sent, header, body);
    lemma_known_holds_gathered(
        absorbed(entry_for(before.partials, header), header, body)->0,
        sent,
        arrivals,
    );
    law_completed_frames_are_exact(before, sent, header, body);
}

/// If some datagram completes a frame, there is a first one that does.
proof fn lemma_first_outcome(state: ReassemblerView, arrivals: Seq<(Header, Seq<u8>)>, last: int)
    -> (n: int)
    requires
        0 <= last,
        outcome(state, arrivals, last) is Some,
    ensures
        0 <= n <= last,
        outcome(state, arrivals, n) is Some,
        forall|k: int| 0 <= k < n ==> (#[trigger] outcome(state, arrivals, k)) is None,
    decreases last,
{
    if exists|k: int| 0 <= k < last && (#[trigger] outcome(state, arrivals, k)) is Some {
        let k = choose|k: int| 0 <= k < last && (#[trigger] outcome(state, arrivals, k)) is Some;
        lemma_first_outcome(state, arrivals, k)
    } else {
        last
    }
}

/// A frame comes out byte for byte, with the flags and the timestamp it was sent
/// with, from any of its datagrams, in any order and repeated or not, that
/// between them can make every group whole: one may be missing from a group whose
/// parity arrived, two from a group both of whose parity blocks did.
pub proof fn law_frame_survives_losses(
    state: ReassemblerView,
    sent: Sent,
    arrivals: Seq<(Header, Seq<u8>)>,
)
    requires
        fec::fits(sent.blocks),
        sent.awaited(state),
        forall|k: int| 0 <= k < arrivals.len() ==> sent.owns(#[trigger] arrivals[k]),
        arrivals.len() > 0,
        recoverable(gathered(sent, arrivals)),
    ensures
        exists|n: int|
            0 <= n < arrivals.len() && (#[trigger] outcome(state, arrivals, n) matches Some(frame)
                && sent.is(frame)),
{
    let some = if forall|k: int|
        0 <= k < arrivals.len() - 1 ==> (#[trigger] outcome(state, arrivals, k)) is None {
        lemma_last_arrival(state, sent, arrivals);
        arrivals.len() - 1
    } else {
        choose|k: int|
            0 <= k < arrivals.len() - 1 && (#[trigger] outcome(state, arrivals, k)) is Some
    };
    let n = lemma_first_outcome(state, arrivals, some);
    lemma_arrivals(state, sent, arrivals, n);
    assert(sent.owns(arrivals[n]));
    lemma_arrival(after_all(state, arrivals.take(n)), sent, arrivals[n].0, arrivals[n].1);
    assert(outcome(state, arrivals, n) is Some);
}

/// Where the group that fragment `i` belongs to starts.
pub open spec fn group_start(i: int) -> int {
    i - i % fec::GROUP as int
}

/// Whether parity stands only at the starts of groups of ten.
pub open spec fn is_aligned(datagram: (Header, Seq<u8>)) -> bool {
    datagram.0.flagged(flags::PARITY) ==> datagram.0.fragment_index as int % fec::GROUP as int == 0
}

spec fn parity_is_aligned(entry: PartialView) -> bool {
    forall|s: u16|
        #![trigger entry.p.contains_key(s)]
        #![trigger entry.q.contains_key(s)]
        entry.p.contains_key(s) || entry.q.contains_key(s) ==> s as int % fec::GROUP as int == 0
}

/// Whether what is known of a frame is what was received of it, with every group
/// made whole that can be.
spec fn made_of(entry: PartialView, held: PartialView) -> bool {
    &&& entry.fragments.len() == held.fragments.len()
    &&& entry.p.dom() == held.p.dom()
    &&& entry.q.dom() == held.q.dom()
    &&& forall|i: int|
        0 <= i < held.fragments.len() ==> ((#[trigger] entry.fragments[i]) is Some <==> {
            held.fragments[i] is Some || enough(held, group_start(i))
        })
}

proof fn lemma_group_start(i: int, len: nat)
    requires
        0 <= i < len,
    ensures
        group_start(i) % fec::GROUP as int == 0,
        0 <= group_start(i) <= i < group_end(len, group_start(i)),
{
}

proof fn lemma_same_group(i: int, first: int, len: nat)
    requires
        0 <= first <= i < group_end(len, first),
        first < len,
        first % fec::GROUP as int == 0,
    ensures
        group_start(i) == first,
{
}

/// Repairing the group at `first` fills it only if its parity is enough.
proof fn lemma_group_repair_needs_parity(
    entry: PartialView,
    current: Seq<Option<Seq<u8>>>,
    first: int,
)
    requires
        parity_is_aligned(entry),
        current.len() == entry.fragments.len(),
        0 <= first < current.len(),
        forall|i: int|
            0 <= i < current.len() && group_start(i) >= first ==> #[trigger] current[i]
                == entry.fragments[i],
    ensures
        ({
            let after = group_repaired(current, first, entry.p, entry.q);
            &&& after.len() == current.len()
            &&& forall|i: int|
                0 <= i < after.len() && group_start(i) != first ==> #[trigger] after[i]
                    == current[i]
            &&& after == current || enough(entry, first)
        }),
{
    let end = group_end(current.len(), first);
    let window = current.subrange(first, end);
    let after = group_repaired(current, first, entry.p, entry.q);
    lemma_group_repaired(current, first, entry.p, entry.q);
    if first <= u16::MAX {
        let s = first as u16;
        assert(entry.p.contains_key(s) || entry.q.contains_key(s) ==> first % fec::GROUP as int
            == 0);
    }
    if fec::solved(window, block_at(entry.p, first), block_at(entry.q, first)) is Some {
        assert(first % fec::GROUP as int == 0);
        assert forall|i: int| 0 <= i < window.len() implies window[i]
            == #[trigger] entry.fragments.subrange(first, end)[i] by {
            lemma_same_group(first + i, first, current.len());
            assert(current[first + i] == entry.fragments[first + i]);
        }
        assert(window =~= entry.fragments.subrange(first, end));
        let solution = fec::solved(window, block_at(entry.p, first), block_at(entry.q, first))->0;
        assert(solution.len() == window.len());
        assert forall|i: int| 0 <= i < after.len() && group_start(i) != first implies
            #[trigger] after[i] == current[i] by {
            if first <= i < end {
                lemma_same_group(i, first, current.len());
            }
        }
    }
}

proof fn lemma_repair_needs_parity(entry: PartialView, n: int)
    requires
        parity_is_aligned(entry),
        0 <= n <= entry.fragments.len(),
    ensures
        ({
            let after = repaired_before(entry.fragments, n, entry.p, entry.q);
            &&& after.len() == entry.fragments.len()
            &&& forall|i: int|
                0 <= i < after.len() && group_start(i) >= n ==> #[trigger] after[i]
                    == entry.fragments[i]
            &&& forall|i: int|
                0 <= i < after.len() && (#[trigger] after[i]) is Some ==> entry.fragments[i] is Some
                    || enough(entry, group_start(i))
        }),
    decreases n,
{
    if n > 0 {
        let before = repaired_before(entry.fragments, n - 1, entry.p, entry.q);
        let after = repaired_before(entry.fragments, n, entry.p, entry.q);
        lemma_repair_needs_parity(entry, n - 1);
        lemma_group_repair_needs_parity(entry, before, n - 1);
        assert forall|i: int| 0 <= i < after.len() && (#[trigger] after[i]) is Some implies
            entry.fragments[i] is Some || enough(entry, group_start(i)) by {
            if group_start(i) != n - 1 {
                assert(after[i] == before[i]);
            } else if !enough(entry, n - 1) {
                assert(after[i] == before[i]);
            }
        }
    }
}

/// Repair makes whole just the groups that can be made whole.
proof fn lemma_settled_is_made_of(known: PartialView, header: Header, blocks: Seq<Seq<u8>>)
    requires
        fec::fits(blocks),
        faithful(known, blocks),
        parity_is_aligned(known),
    ensures
        made_of(settled(known, header), known),
{
    let n = blocks.len() as int;
    let after = settled(known, header).fragments;
    lemma_repair_is_exact(known, blocks, n);
    lemma_repair_needs_parity(known, n);
    assert forall|i: int| 0 <= i < n implies ((#[trigger] after[i]) is Some <==> {
        known.fragments[i] is Some || enough(known, group_start(i))
    }) by {
        lemma_group_start(i, blocks.len());
        let first = group_start(i);
        if enough(known, first) {
            assert(after[i] is Some);
        }
        if known.fragments[i] is Some {
            assert(after[i] is Some);
        }
    }
}

/// A frame is whole exactly when what it is made of can be made whole.
proof fn lemma_whole_when_recoverable(entry: PartialView, held: PartialView)
    requires
        made_of(entry, held),
    ensures
        holes(entry.fragments) == 0 <==> recoverable(held),
{
    let len = held.fragments.len();
    lemma_no_holes(entry.fragments);
    if recoverable(held) {
        assert forall|i: int| 0 <= i < len implies (#[trigger] entry.fragments[i]) is Some by {
            lemma_group_start(i, len);
            assert(enough(held, group_start(i)));
        }
    }
    if holes(entry.fragments) == 0 {
        assert forall|first: int| 0 <= first < len && first % fec::GROUP as int == 0 implies
            #[trigger] enough(held, first) by {
            let window = held.fragments.subrange(first, group_end(len, first));
            lemma_no_holes(window);
            if !enough(held, first) {
                assert forall|i: int| 0 <= i < window.len() implies (#[trigger] window[i]) is Some by {
                    lemma_same_group(first + i, first, len);
                    assert(entry.fragments[first + i] is Some);
                }
            }
        }
    }
}

/// What one more datagram adds to what is held.
spec fn extends(more: PartialView, held: PartialView, datagram: (Header, Seq<u8>)) -> bool {
    &&& more.fragments.len() == held.fragments.len()
    &&& forall|i: int|
        0 <= i < held.fragments.len() ==> ((#[trigger] more.fragments[i]) is Some <==> {
            held.fragments[i] is Some || is_data(datagram, i)
        })
    &&& forall|s: u16| #[trigger]
        more.p.contains_key(s) <==> held.p.contains_key(s) || is_parity(datagram, 0, s as int)
    &&& forall|s: u16| #[trigger]
        more.q.contains_key(s) <==> held.q.contains_key(s) || is_parity(datagram, 1, s as int)
}

/// Taking a datagram into what is known, and into what was received, leaves the
/// same groups able to be made whole.
proof fn lemma_enough_of_either(
    entry: PartialView,
    held: PartialView,
    known: PartialView,
    more: PartialView,
    datagram: (Header, Seq<u8>),
    first: int,
)
    requires
        made_of(entry, held),
        extends(known, entry, datagram),
        extends(more, held, datagram),
        0 <= first < held.fragments.len(),
        first % fec::GROUP as int == 0,
    ensures
        enough(known, first) <==> enough(more, first),
        enough(held, first) ==> enough(more, first),
{
    let len = held.fragments.len();
    let end = group_end(len, first);
    let wk = known.fragments.subrange(first, end);
    let wm = more.fragments.subrange(first, end);
    assert(entry.p.dom().contains(first as u16) == held.p.dom().contains(first as u16));
    assert(entry.q.dom().contains(first as u16) == held.q.dom().contains(first as u16));
    assert(known.p.contains_key(first as u16) == more.p.contains_key(first as u16));
    assert(known.q.contains_key(first as u16) == more.q.contains_key(first as u16));
    if enough(held, first) {
        lemma_no_holes(wk);
        assert forall|i: int| 0 <= i < wk.len() implies (#[trigger] wk[i]) is Some by {
            lemma_same_group(first + i, first, len);
            assert(entry.fragments[first + i] is Some);
            assert(known.fragments[first + i] is Some);
        }
        assert(holds_all_of(more.fragments, held.fragments));
        assert(held.p.dom().subset_of(more.p.dom()));
        assert(held.q.dom().subset_of(more.q.dom()));
        lemma_enough_grows(more, held, first);
    } else {
        assert forall|i: int| 0 <= i < wk.len() implies ((#[trigger] wk[i]) is Some
            <==> wm[i] is Some) by {
            lemma_same_group(first + i, first, len);
            assert(entry.fragments[first + i] is Some <==> held.fragments[first + i] is Some);
            assert(known.fragments[first + i] is Some <==> more.fragments[first + i] is Some);
        }
        lemma_fewer_holes(wk, wm);
        lemma_fewer_holes(wm, wk);
    }
}

/// What is known after a datagram is made of what was received with it.
proof fn lemma_made_of_more(
    entry: PartialView,
    held: PartialView,
    known: PartialView,
    more: PartialView,
    after: PartialView,
    datagram: (Header, Seq<u8>),
)
    requires
        made_of(entry, held),
        extends(known, entry, datagram),
        extends(more, held, datagram),
        made_of(after, known),
    ensures
        made_of(after, more),
{
    let len = held.fragments.len();
    assert forall|s: u16| after.p.dom().contains(s) == more.p.dom().contains(s) by {
        assert(known.p.contains_key(s) <==> entry.p.contains_key(s) || is_parity(
            datagram,
            0,
            s as int,
        ));
        assert(entry.p.dom().contains(s) == held.p.dom().contains(s));
        assert(more.p.contains_key(s) == known.p.contains_key(s));
        assert(after.p.dom().contains(s) == known.p.dom().contains(s));
    }
    assert forall|s: u16| after.q.dom().contains(s) == more.q.dom().contains(s) by {
        assert(known.q.contains_key(s) <==> entry.q.contains_key(s) || is_parity(
            datagram,
            1,
            s as int,
        ));
        assert(entry.q.dom().contains(s) == held.q.dom().contains(s));
        assert(more.q.contains_key(s) == known.q.contains_key(s));
        assert(after.q.dom().contains(s) == known.q.dom().contains(s));
    }
    assert(after.p.dom() =~= more.p.dom());
    assert(after.q.dom() =~= more.q.dom());
    assert forall|i: int| 0 <= i < len implies ((#[trigger] after.fragments[i]) is Some <==> {
        more.fragments[i] is Some || enough(more, group_start(i))
    }) by {
        lemma_group_start(i, len);
        lemma_enough_of_either(entry, held, known, more, datagram, group_start(i));
        assert(known.fragments[i] is Some <==> entry.fragments[i] is Some || is_data(datagram, i));
        assert(more.fragments[i] is Some <==> held.fragments[i] is Some || is_data(datagram, i));
        assert(entry.fragments[i] is Some <==> held.fragments[i] is Some || enough(
            held,
            group_start(i),
        ));
    }
}

/// Taking in a datagram of the frame adds that datagram and nothing else.
proof fn lemma_absorbing_extends(
    entry: PartialView,
    header: Header,
    body: Seq<u8>,
    blocks: Seq<Seq<u8>>,
)
    requires
        entry.fragments.len() == blocks.len(),
        carries(blocks, header, body),
    ensures
        absorbed(entry, header, body) matches Some(known) && extends(known, entry, (header, body)),
{
}

/// What is held with one more datagram.
proof fn lemma_gathering_extends(sent: Sent, arrivals: Seq<(Header, Seq<u8>)>, n: int)
    requires
        0 <= n < arrivals.len(),
    ensures
        extends(
            gathered(sent, arrivals.take(n + 1)),
            gathered(sent, arrivals.take(n)),
            arrivals[n],
        ),
{
    let (few, more) = (arrivals.take(n), arrivals.take(n + 1));
    let (held, all) = (gathered(sent, few), gathered(sent, more));
    assert(more[n] == arrivals[n]);
    assert forall|k: int| 0 <= k < n implies #[trigger] more[k] == few[k] by {}
    assert forall|i: int| 0 <= i < sent.blocks.len() implies ((
    #[trigger] all.fragments[i]) is Some <==> held.fragments[i] is Some || is_data(
        arrivals[n],
        i,
    )) by {
        if held.fragments[i] is Some {
            let k = choose|k: int| 0 <= k < few.len() && is_data(#[trigger] few[k], i);
            assert(is_data(more[k], i));
        }
        if all.fragments[i] is Some {
            let k = choose|k: int| 0 <= k < more.len() && is_data(#[trigger] more[k], i);
            assert(k < n ==> is_data(few[k], i));
        }
    }
    assert forall|s: u16| #[trigger]
        all.p.contains_key(s) <==> held.p.contains_key(s) || is_parity(
            arrivals[n],
            0,
            s as int,
        ) by {
        if held.p.contains_key(s) {
            let k = choose|k: int|
                0 <= k < few.len() && is_parity(#[trigger] few[k], 0, s as int);
            assert(is_parity(more[k], 0, s as int));
        }
        if all.p.contains_key(s) {
            let k = choose|k: int|
                0 <= k < more.len() && is_parity(#[trigger] more[k], 0, s as int);
            assert(k < n ==> is_parity(few[k], 0, s as int));
        }
    }
    assert forall|s: u16| #[trigger]
        all.q.contains_key(s) <==> held.q.contains_key(s) || is_parity(
            arrivals[n],
            1,
            s as int,
        ) by {
        if held.q.contains_key(s) {
            let k = choose|k: int|
                0 <= k < few.len() && is_parity(#[trigger] few[k], 1, s as int);
            assert(is_parity(more[k], 1, s as int));
        }
        if all.q.contains_key(s) {
            let k = choose|k: int|
                0 <= k < more.len() && is_parity(#[trigger] more[k], 1, s as int);
            assert(k < n ==> is_parity(few[k], 1, s as int));
        }
    }
}

proof fn lemma_recoverable_stays(sent: Sent, arrivals: Seq<(Header, Seq<u8>)>, n: int)
    requires
        0 <= n < arrivals.len(),
        recoverable(gathered(sent, arrivals.take(n))),
    ensures
        recoverable(gathered(sent, arrivals.take(n + 1))),
{
    let held = gathered(sent, arrivals.take(n));
    let more = gathered(sent, arrivals.take(n + 1));
    lemma_gathering_extends(sent, arrivals, n);
    assert(holds_all_of(more.fragments, held.fragments));
    assert(held.p.dom().subset_of(more.p.dom()));
    assert(held.q.dom().subset_of(more.q.dom()));
    assert forall|first: int|
        0 <= first < more.fragments.len() && first % fec::GROUP as int == 0 implies
        #[trigger] enough(more, first) by {
        assert(enough(held, first));
        lemma_enough_grows(more, held, first);
    }
}

/// What can be made whole stays so as more arrives.
pub proof fn lemma_recoverable_lasts(
    sent: Sent,
    arrivals: Seq<(Header, Seq<u8>)>,
    from: int,
    to: int,
)
    requires
        0 <= from <= to <= arrivals.len(),
        recoverable(gathered(sent, arrivals.take(from))),
    ensures
        recoverable(gathered(sent, arrivals.take(to))),
    decreases to - from,
{
    if from < to {
        lemma_recoverable_lasts(sent, arrivals, from, to - 1);
        lemma_recoverable_stays(sent, arrivals, to - 1);
    }
}

/// Of a frame that nothing has arrived of, no group is whole.
proof fn lemma_nothing_held(sent: Sent, header: Header)
    requires
        header.fragment_count == sent.blocks.len(),
        sent.blocks.len() > 0,
    ensures
        made_of(fresh(header), gathered(sent, seq![])),
        !recoverable(gathered(sent, seq![])),
{
    let held = gathered(sent, seq![]);
    let len = held.fragments.len();
    assert forall|first: int| 0 <= first < len implies !(#[trigger] enough(held, first)) by {
        let window = held.fragments.subrange(first, group_end(len, first));
        lemma_no_holes(window);
        assert(window[0] is None);
    }
    assert(fresh(header).p.dom() =~= held.p.dom());
    assert(fresh(header).q.dom() =~= held.q.dom());
    assert forall|i: int| 0 <= i < len implies ((#[trigger] fresh(header).fragments[i]) is Some
        <==> {
        held.fragments[i] is Some || enough(held, group_start(i))
    }) by {
        lemma_group_start(i, len);
    }
    assert(!enough(held, 0));
}

/// What holds before each datagram of a frame until the frame comes out.
spec fn on_the_way(
    state: ReassemblerView,
    sent: Sent,
    arrivals: Seq<(Header, Seq<u8>)>,
    n: int,
) -> bool {
    let now = after_all(state, arrivals.take(n));
    &&& sent.awaited(now)
    &&& if n == 0 {
        !now.partials.contains_key(sent.seq)
    } else {
        &&& now.partials.contains_key(sent.seq)
        &&& made_of(now.partials[sent.seq], gathered(sent, arrivals.take(n)))
        &&& parity_is_aligned(now.partials[sent.seq])
    }
}

/// One more datagram on the way.
proof fn lemma_one_on_the_way(
    state: ReassemblerView,
    sent: Sent,
    arrivals: Seq<(Header, Seq<u8>)>,
    n: int,
)
    requires
        fec::fits(sent.blocks),
        0 <= n < arrivals.len(),
        sent.owns(arrivals[n]),
        is_aligned(arrivals[n]),
        on_the_way(state, sent, arrivals, n),
    ensures
        ({
            let now = after_all(state, arrivals.take(n));
            let next = after_all(state, arrivals.take(n + 1));
            let (header, body) = arrivals[n];
            let entry = entry_for(now.partials, header);
            let known = absorbed(entry, header, body)->0;
            let all = gathered(sent, arrivals.take(n + 1));
            &&& outcome(state, arrivals, n) is Some <==> recoverable(all)
            &&& outcome(state, arrivals, n) matches Some(frame) ==> sent.is(frame)
            &&& recoverable(all) ==> sent.has_come_out(next) && sent.awaited(next)
                && !next.partials.contains_key(sent.seq)
            &&& !recoverable(all) ==> on_the_way(state, sent, arrivals, n + 1)
            &&& made_of(entry, gathered(sent, arrivals.take(n)))
            &&& extends(known, entry, arrivals[n])
            &&& made_of(settled(known, header), known)
            &&& sent.has_come_out(now) ==> next.repaired == now.repaired
            &&& !sent.has_come_out(now) ==> next.repaired == now.repaired + holes(
                known.fragments,
            ) - holes(settled(known, header).fragments)
        }),
{
    let now = after_all(state, arrivals.take(n));
    let (header, body) = arrivals[n];
    let entry = entry_for(now.partials, header);
    let held = gathered(sent, arrivals.take(n));
    let all = gathered(sent, arrivals.take(n + 1));
    assert(arrivals.take(n + 1).drop_last() =~= arrivals.take(n));
    assert(arrivals.take(n + 1).last() == arrivals[n]);
    lemma_arrival(now, sent, header, body);
    if n == 0 {
        assert(arrivals.take(0) =~= seq![]);
        lemma_nothing_held(sent, header);
    }
    assert(made_of(entry, held));
    let known = absorbed(entry, header, body)->0;
    let after = settled(known, header);
    lemma_absorbing_extends(entry, header, body, sent.blocks);
    assert(parity_is_aligned(entry));
    assert(parity_is_aligned(known)) by {
        assert forall|s: u16|
            #![trigger known.p.contains_key(s)]
            #![trigger known.q.contains_key(s)]
            known.p.contains_key(s) || known.q.contains_key(s) implies s as int % fec::GROUP as int
            == 0 by {
            if entry.p.contains_key(s) || entry.q.contains_key(s) {
            } else {
                assert(is_parity(arrivals[n], 0, s as int) || is_parity(arrivals[n], 1, s as int));
            }
        }
    }
    lemma_settled_is_made_of(known, header, sent.blocks);
    lemma_gathering_extends(sent, arrivals, n);
    lemma_made_of_more(entry, held, known, all, after, arrivals[n]);
    lemma_whole_when_recoverable(after, all);
}

/// Until its datagrams can make it whole, a frame stays on the way.
proof fn lemma_on_the_way(
    state: ReassemblerView,
    sent: Sent,
    arrivals: Seq<(Header, Seq<u8>)>,
    n: int,
)
    requires
        fec::fits(sent.blocks),
        sent.awaited(state),
        !state.partials.contains_key(sent.seq),
        forall|k: int|
            0 <= k < arrivals.len() ==> sent.owns(#[trigger] arrivals[k]) && is_aligned(arrivals[k]),
        0 <= n <= arrivals.len(),
        n > 0 ==> !recoverable(gathered(sent, arrivals.take(n))),
    ensures
        on_the_way(state, sent, arrivals, n),
    decreases n,
{
    if n == 0 {
        assert(arrivals.take(0) =~= seq![]);
    } else {
        if recoverable(gathered(sent, arrivals.take(n - 1))) {
            lemma_recoverable_stays(sent, arrivals, n - 1);
        }
        lemma_on_the_way(state, sent, arrivals, n - 1);
        assert(sent.owns(arrivals[n - 1]));
        lemma_one_on_the_way(state, sent, arrivals, n - 1);
    }
}

/// Once its datagrams can make it whole, a frame has come out.
proof fn lemma_has_come_out(
    state: ReassemblerView,
    sent: Sent,
    arrivals: Seq<(Header, Seq<u8>)>,
    n: int,
)
    requires
        fec::fits(sent.blocks),
        sent.awaited(state),
        !state.partials.contains_key(sent.seq),
        forall|k: int|
            0 <= k < arrivals.len() ==> sent.owns(#[trigger] arrivals[k]) && is_aligned(arrivals[k]),
        0 < n <= arrivals.len(),
        recoverable(gathered(sent, arrivals.take(n))),
    ensures
        sent.has_come_out(after_all(state, arrivals.take(n))),
        sent.awaited(after_all(state, arrivals.take(n))),
    decreases n,
{
    assert(sent.owns(arrivals[n - 1]));
    assert(arrivals.take(n).drop_last() =~= arrivals.take(n - 1));
    if n > 1 && recoverable(gathered(sent, arrivals.take(n - 1))) {
        lemma_has_come_out(state, sent, arrivals, n - 1);
        lemma_arrival(
            after_all(state, arrivals.take(n - 1)),
            sent,
            arrivals[n - 1].0,
            arrivals[n - 1].1,
        );
    } else {
        lemma_on_the_way(state, sent, arrivals, n - 1);
        lemma_one_on_the_way(state, sent, arrivals, n - 1);
    }
}

/// A frame comes out of its datagrams, in any order and repeated or not, with
/// just the one that makes every group whole or able to be made whole: no more
/// fragments of a group of ten are missing than parity blocks of it arrived. No
/// datagram before that one brings anything; and where too much is lost of some
/// group, none ever does. With the frame, everything held of it goes: what arrives
/// of it from there on is collected anew, so that a copy comes out like the frame
/// itself.
pub proof fn law_frame_comes_out_just_when_recoverable(
    state: ReassemblerView,
    sent: Sent,
    arrivals: Seq<(Header, Seq<u8>)>,
    n: int,
)
    requires
        fec::fits(sent.blocks),
        sent.awaited(state),
        !state.partials.contains_key(sent.seq),
        forall|k: int|
            0 <= k < arrivals.len() ==> sent.owns(#[trigger] arrivals[k]) && is_aligned(arrivals[k]),
        0 <= n < arrivals.len(),
        !recoverable(gathered(sent, arrivals.take(n))),
    ensures
        outcome(state, arrivals, n) is Some <==> recoverable(
            gathered(sent, arrivals.take(n + 1)),
        ),
        outcome(state, arrivals, n) matches Some(frame) ==> sent.is(frame),
        outcome(state, arrivals, n) is Some ==> {
            let after = after_all(state, arrivals.take(n + 1));
            sent.awaited(after) && !after.partials.contains_key(sent.seq)
        },
{
    assert(sent.owns(arrivals[n]));
    lemma_on_the_way(state, sent, arrivals, n);
    lemma_one_on_the_way(state, sent, arrivals, n);
}

/// Nothing can be made whole of no datagrams at all: the first datagram of a frame
/// is one before which it could not be made whole.
pub proof fn law_nothing_comes_of_nothing(sent: Sent)
    requires
        0 < sent.blocks.len() <= u16::MAX,
    ensures
        !recoverable(gathered(sent, seq![])),
{
    let header = Header {
        kind: Kind::Video,
        fragment_index: 0,
        fragment_count: sent.blocks.len() as u16,
        seq: sent.seq,
        pts_micros: sent.pts_micros,
        flags: 0,
        rate: None,
    };
    lemma_nothing_held(sent, header);
}

/// Whether every fragment of a frame is among the datagrams.
pub open spec fn all_fragments_in(sent: Sent, arrivals: Seq<(Header, Seq<u8>)>) -> bool {
    forall|i: int|
        0 <= i < sent.blocks.len() ==> #[trigger] has_fragment(arrivals, i)
}

/// Whether fragment `i` is among the datagrams.
pub open spec fn has_fragment(arrivals: Seq<(Header, Seq<u8>)>, i: int) -> bool {
    exists|k: int| 0 <= k < arrivals.len() && is_data(#[trigger] arrivals[k], i)
}

/// Without parity, only a frame that lacks nothing can be made whole.
proof fn lemma_recoverable_without_parity(sent: Sent, arrivals: Seq<(Header, Seq<u8>)>)
    requires
        forall|k: int|
            0 <= k < arrivals.len() ==> !(#[trigger] arrivals[k]).0.flagged(flags::PARITY),
    ensures
        recoverable(gathered(sent, arrivals)) <==> all_fragments_in(sent, arrivals),
{
    let held = gathered(sent, arrivals);
    let len = held.fragments.len();
    assert forall|first: int| 0 <= first < len implies (#[trigger] enough(held, first) <==> holes(
        held.fragments.subrange(first, group_end(len, first)),
    ) == 0) by {
        assert(!held.p.contains_key(first as u16));
        assert(!held.q.contains_key(first as u16));
    }
    if recoverable(held) {
        assert forall|i: int| 0 <= i < len implies #[trigger] has_fragment(arrivals, i) by {
            lemma_group_start(i, len);
            let first = group_start(i);
            let window = held.fragments.subrange(first, group_end(len, first));
            assert(enough(held, first));
            lemma_no_holes(window);
            assert(window[i - first] is Some);
            assert(held.fragments[i] is Some);
        }
    }
    if all_fragments_in(sent, arrivals) {
        assert forall|first: int| 0 <= first < len && first % fec::GROUP as int == 0 implies
            #[trigger] enough(held, first) by {
            let window = held.fragments.subrange(first, group_end(len, first));
            lemma_no_holes(window);
            assert forall|i: int| 0 <= i < window.len() implies (#[trigger] window[i]) is Some by {
                assert(has_fragment(arrivals, first + i));
            }
        }
    }
}

/// Where only fragments arrive, in any order and repeated or not, the frame comes
/// out, byte for byte, with the last one that was still lacking, and with none
/// before it; while any is withheld, nothing comes out.
pub proof fn law_fragments_alone_make_a_frame(
    state: ReassemblerView,
    sent: Sent,
    arrivals: Seq<(Header, Seq<u8>)>,
    n: int,
)
    requires
        fec::fits(sent.blocks),
        sent.awaited(state),
        !state.partials.contains_key(sent.seq),
        forall|k: int|
            0 <= k < arrivals.len() ==> sent.owns(#[trigger] arrivals[k])
                && !arrivals[k].0.flagged(flags::PARITY),
        0 <= n < arrivals.len(),
        !all_fragments_in(sent, arrivals.take(n)),
    ensures
        outcome(state, arrivals, n) is Some <==> all_fragments_in(sent, arrivals.take(n + 1)),
        outcome(state, arrivals, n) matches Some(frame) ==> sent.is(frame),
{
    assert forall|k: int| 0 <= k < arrivals.len() implies sent.owns(#[trigger] arrivals[k])
        && is_aligned(arrivals[k]) by {}
    lemma_recoverable_without_parity(sent, arrivals.take(n));
    lemma_recoverable_without_parity(sent, arrivals.take(n + 1));
    law_frame_comes_out_just_when_recoverable(state, sent, arrivals, n);
}

/// Whether each parity datagram finds its group whole: none of the frame's
/// fragments was lost or overtaken by the parity behind it.
pub open spec fn parity_comes_last(sent: Sent, arrivals: Seq<(Header, Seq<u8>)>) -> bool {
    forall|k: int, i: int|
        0 <= k < arrivals.len() && (#[trigger] arrivals[k]).0.flagged(flags::PARITY) && 0 <= i
            < sent.blocks.len() && group_start(i) == arrivals[k].0.fragment_index
            ==> #[trigger] has_fragment(arrivals.take(k), i)
}

/// Where parity finds its group whole, there is nothing for it to rebuild.
proof fn lemma_nothing_to_rebuild(
    sent: Sent,
    arrivals: Seq<(Header, Seq<u8>)>,
    n: int,
    entry: PartialView,
    known: PartialView,
    after: PartialView,
)
    requires
        0 <= n < arrivals.len(),
        parity_comes_last(sent, arrivals),
        made_of(entry, gathered(sent, arrivals.take(n))),
        extends(known, entry, arrivals[n]),
        made_of(after, known),
    ensures
        holes(after.fragments) == holes(known.fragments),
{
    let held = gathered(sent, arrivals.take(n));
    let all = gathered(sent, arrivals.take(n + 1));
    let len = held.fragments.len();
    lemma_gathering_extends(sent, arrivals, n);
    assert forall|i: int| 0 <= i < len && (#[trigger] after.fragments[i]) is Some implies
        known.fragments[i] is Some by {
        let first = group_start(i);
        lemma_group_start(i, len);
        if known.fragments[i] is None {
            assert(enough(known, first));
            let window = known.fragments.subrange(first, group_end(len, first));
            lemma_no_holes(window);
            assert(window[i - first] is None);
            let s = first as u16;
            assert(entry.p.dom().contains(s) == held.p.dom().contains(s));
            assert(entry.q.dom().contains(s) == held.q.dom().contains(s));
            assert(known.p.contains_key(s) == all.p.contains_key(s));
            assert(known.q.contains_key(s) == all.q.contains_key(s));
            let more = arrivals.take(n + 1);
            let level: u8 = if all.p.contains_key(s) {
                0
            } else {
                1
            };
            let k = choose|k: int|
                0 <= k < more.len() && is_parity(#[trigger] more[k], level, s as int);
            assert(more[k] == arrivals[k]);
            assert(has_fragment(arrivals.take(k), i));
            let j = choose|j: int|
                0 <= j < arrivals.take(k).len() && is_data(#[trigger] arrivals.take(k)[j], i);
            assert(arrivals.take(n)[j] == arrivals.take(k)[j]);
            assert(held.fragments[i] is Some);
            assert(entry.fragments[i] is Some);
        }
    }
    assert(holds_all_of(known.fragments, after.fragments));
    assert(holds_all_of(after.fragments, known.fragments)) by {
        assert forall|i: int| 0 <= i < len && (#[trigger] known.fragments[i]) is Some implies
            after.fragments[i] is Some by {}
    }
    lemma_fewer_holes(known.fragments, after.fragments);
    lemma_fewer_holes(after.fragments, known.fragments);
}

proof fn lemma_clean_run(
    state: ReassemblerView,
    sent: Sent,
    arrivals: Seq<(Header, Seq<u8>)>,
    n: int,
)
    requires
        fec::fits(sent.blocks),
        sent.awaited(state),
        !state.partials.contains_key(sent.seq),
        forall|k: int|
            0 <= k < arrivals.len() ==> sent.owns(#[trigger] arrivals[k]) && is_aligned(arrivals[k]),
        parity_comes_last(sent, arrivals),
        0 <= n <= arrivals.len(),
    ensures
        after_all(state, arrivals.take(n)).repaired == state.repaired,
    decreases n,
{
    if n == 0 {
        assert(arrivals.take(0) =~= seq![]);
    } else {
        lemma_clean_run(state, sent, arrivals, n - 1);
        assert(sent.owns(arrivals[n - 1]));
        assert(arrivals.take(n).drop_last() =~= arrivals.take(n - 1));
        if n > 1 && recoverable(gathered(sent, arrivals.take(n - 1))) {
            lemma_has_come_out(state, sent, arrivals, n - 1);
            lemma_arrival(
                after_all(state, arrivals.take(n - 1)),
                sent,
                arrivals[n - 1].0,
                arrivals[n - 1].1,
            );
        } else {
            lemma_on_the_way(state, sent, arrivals, n - 1);
            lemma_one_on_the_way(state, sent, arrivals, n - 1);
            let now = after_all(state, arrivals.take(n - 1));
            let (header, body) = arrivals[n - 1];
            let entry = entry_for(now.partials, header);
            let known = absorbed(entry, header, body)->0;
            lemma_nothing_to_rebuild(
                sent,
                arrivals,
                n - 1,
                entry,
                known,
                settled(known, header),
            );
        }
    }
}

/// Nothing counts as rebuilt where nothing was lost: as long as each parity
/// datagram comes behind the fragments it covers, as it is sent, the count of
/// rebuilt fragments stays as it was, however much parity there is.
pub proof fn law_clean_frames_need_no_repair(
    state: ReassemblerView,
    sent: Sent,
    arrivals: Seq<(Header, Seq<u8>)>,
)
    requires
        fec::fits(sent.blocks),
        sent.awaited(state),
        !state.partials.contains_key(sent.seq),
        forall|k: int|
            0 <= k < arrivals.len() ==> sent.owns(#[trigger] arrivals[k]) && is_aligned(arrivals[k]),
        parity_comes_last(sent, arrivals),
    ensures
        after_all(state, arrivals).repaired == state.repaired,
{
    lemma_clean_run(state, sent, arrivals, arrivals.len() as int);
    assert(arrivals.take(arrivals.len() as int) =~= arrivals);
}

} // verus!
