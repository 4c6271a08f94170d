//! A link with faults, for the self-test: it loses and reorders datagrams as a
//! long path does, by chance but reproducibly.

use vstd::prelude::*;

use crate::packet;

verus! {

/// Where every run's chance starts, so a failing run can be reproduced exactly.
pub const SEED: u64 = 0x2545_F491_4F6C_DD1D;

/// The state of the generator after one more number is drawn.
pub open spec fn shuffled(rng: u64) -> u64 {
    let a = rng ^ (rng >> 12u64);
    let b = a ^ (a << 25u64);
    b ^ (b >> 27u64)
}

/// The number drawn when the generator has come to `rng`.
pub open spec fn drawn(rng: u64) -> u64 {
    rng.wrapping_mul(0x2545_F491_4F6C_DD1D) >> 32u64
}

/// A datagram held back, and the tick it is due at.
pub type Held = (u64, Seq<u8>);

/// The state of the link.
#[verifier::ext_equal]
pub struct LoopbackView {
    pub loss_percent: u32,
    pub reorder: u32,
    pub rng: u64,
    pub held: Seq<Held>,
    pub tick: u64,
    pub dropped: u64,
    pub reordered: u64,
}

/// The datagrams that are due at `tick`, in the order they are held.
pub open spec fn due(held: Seq<Held>, tick: u64) -> Seq<Seq<u8>>
    decreases held.len(),
{
    if held.len() == 0 {
        seq![]
    } else if held.first().0 <= tick {
        seq![held.first().1] + due(held.drop_first(), tick)
    } else {
        due(held.drop_first(), tick)
    }
}

/// The datagrams that are not due yet.
pub open spec fn kept(held: Seq<Held>, tick: u64) -> Seq<Held>
    decreases held.len(),
{
    if held.len() == 0 {
        seq![]
    } else if held.first().0 <= tick {
        kept(held.drop_first(), tick)
    } else {
        seq![held.first()] + kept(held.drop_first(), tick)
    }
}

/// The bytes of held datagrams.
pub open spec fn bytes_of(held: Seq<Held>) -> Seq<Seq<u8>> {
    held.map_values(|h: Held| h.1)
}

impl LoopbackView {
    /// The link before anything is sent.
    pub open spec fn initial(loss_percent: u32, reorder: u32) -> LoopbackView {
        LoopbackView {
            loss_percent,
            reorder,
            rng: SEED,
            held: seq![],
            tick: 0,
            dropped: 0,
            reordered: 0,
        }
    }

    /// The link after a number is drawn.
    pub open spec fn after_draw(self) -> LoopbackView {
        LoopbackView { rng: shuffled(self.rng), ..self }
    }

    /// Whether the next datagram is lost.
    pub open spec fn loses(self) -> bool {
        self.loss_percent > 0 && drawn(self.after_draw().rng) % 100 < self.loss_percent
    }

    /// The link once it has been decided not to lose the next datagram.
    pub open spec fn taking(self) -> LoopbackView {
        let state = if self.loss_percent > 0 {
            self.after_draw()
        } else {
            self
        };
        LoopbackView { tick: (self.tick + 1) as u64, ..state }
    }

    /// For how many ticks the datagram just taken is held back.
    pub open spec fn delay(self) -> u64 {
        if self.reorder > 0 {
            drawn(self.after_draw().rng) % (self.reorder + 1) as u64
        } else {
            0
        }
    }

    /// The link with the datagrams released that are due, and those datagrams.
    pub open spec fn released(self) -> (LoopbackView, Seq<Seq<u8>>) {
        (
            LoopbackView { held: kept(self.held, self.tick), ..self },
            due(self.held, self.tick),
        )
    }

    /// The link after a datagram is sent, and what arrives then.
    pub open spec fn sent(self, datagram: Seq<u8>) -> (LoopbackView, Seq<Seq<u8>>) {
        if self.loses() {
            (
                LoopbackView { dropped: (self.dropped + 1) as u64, ..self.after_draw() },
                seq![],
            )
        } else {
            let taking = self.taking();
            let delay = taking.delay();
            let drew = if self.reorder > 0 {
                taking.after_draw()
            } else {
                taking
            };
            if delay > 0 {
                LoopbackView {
                    reordered: (self.reordered + 1) as u64,
                    held: self.held.push(((taking.tick + delay) as u64, datagram)),
                    ..drew
                }.released()
            } else {
                let (after, late) = drew.released();
                (after, seq![datagram] + late)
            }
        }
    }

    /// Whether the counters can still count `n` more datagrams.
    pub open spec fn can_send_many(self, n: nat) -> bool {
        &&& self.reorder < u32::MAX
        &&& self.tick + self.reorder + n <= u64::MAX
        &&& self.dropped + n <= u64::MAX
        &&& self.reordered + n <= u64::MAX
    }

    /// The link after several datagrams are sent, and what arrives by then.
    pub open spec fn carried(self, datagrams: Seq<Seq<u8>>) -> (LoopbackView, Seq<Seq<u8>>)
        decreases datagrams.len(),
    {
        if datagrams.len() == 0 {
            (self, seq![])
        } else {
            let (before, arrived) = self.carried(datagrams.drop_last());
            let (after, more) = before.sent(datagrams.last());
            (after, arrived + more)
        }
    }
}

/// However many datagrams are sent, each is counted at most once.
proof fn lemma_counters(link: LoopbackView, datagrams: Seq<Seq<u8>>, n: nat)
    requires
        link.can_send_many(datagrams.len() + n),
    ensures
        link.carried(datagrams).0.can_send_many(n),
    decreases datagrams.len(),
{
    if datagrams.len() > 0 {
        lemma_counters(link, datagrams.drop_last(), n + 1);
    }
}

/// The held datagrams by their contents.
pub open spec fn held_contents(held: Seq<(u64, Vec<u8>)>) -> Seq<Held> {
    held.map_values(|h: (u64, Vec<u8>)| (h.0, h.1@))
}

/// A link with faults.
pub struct Loopback {
    loss_percent: u32,
    reorder: u32,
    /// Seeded so a failing run can be reproduced exactly.
    rng: u64,
    /// Datagrams held back to arrive out of order.
    held: Vec<(u64, Vec<u8>)>,
    tick: u64,
    dropped: u64,
    reordered: u64,
}

impl Loopback {
    pub closed spec fn model(self) -> LoopbackView {
        LoopbackView {
            loss_percent: self.loss_percent,
            reorder: self.reorder,
            rng: self.rng,
            held: held_contents(self.held@),
            tick: self.tick,
            dropped: self.dropped,
            reordered: self.reordered,
        }
    }

    pub fn new(loss_percent: u32, reorder: u32) -> (link: Self)
        ensures
            link.model() == LoopbackView::initial(loss_percent, reorder),
    {
        let link = Loopback {
            loss_percent,
            reorder,
            rng: SEED,
            held: Vec::new(),
            tick: 0,
            dropped: 0,
            reordered: 0,
        };
        assert(link.model().held =~= seq![]);
        link
    }

    /// Datagrams lost so far.
    pub fn dropped(&self) -> (count: u64)
        ensures
            count == self.model().dropped,
    {
        self.dropped
    }

    /// Datagrams held back so far.
    pub fn reordered(&self) -> (count: u64)
        ensures
            count == self.model().reordered,
    {
        self.reordered
    }

    /// Whether the counters can still count `n` more datagrams.
    pub fn can_send_many(&self, n: usize) -> (fits: bool)
        ensures
            fits == self.model().can_send_many(n as nat),
    {
        let room: u128 = u64::MAX as u128;
        self.reorder < u32::MAX && self.tick as u128 + self.reorder as u128 + n as u128 <= room
            && self.dropped as u128 + n as u128 <= room && self.reordered as u128 + n as u128
            <= room
    }

    /// Sends datagrams one after the other. Appends to `out` what arrives by then.
    pub fn send_all(&mut self, datagrams: &[Vec<u8>], out: &mut Vec<Vec<u8>>)
        requires
            old(self).model().can_send_many(datagrams@.len()),
        ensures
            final(self).model() == old(self).model().carried(packet::contents(datagrams@)).0,
            packet::contents(final(out)@) == packet::contents(old(out)@) + old(
                self,
            ).model().carried(packet::contents(datagrams@)).1,
    {
        let ghost state = self.model();
        let ghost all = packet::contents(datagrams@);
        let ghost before = packet::contents(out@);
        let mut i: usize = 0;
        assert(before + Seq::<Seq<u8>>::empty() =~= before);
        while i < datagrams.len()
            invariant
                i <= datagrams@.len(),
                all == packet::contents(datagrams@),
                state.can_send_many(all.len()),
                self.model() == state.carried(all.take(i as int)).0,
                packet::contents(out@) == before + state.carried(all.take(i as int)).1,
            decreases datagrams@.len() - i,
        {
            proof {
                let sent = all.take(i as int);
                lemma_counters(state, sent, (all.len() - i) as nat);
                assert(all.take(i + 1).drop_last() =~= sent);
                assert(all.take(i + 1).last() == datagrams@[i as int]@);
            }
            self.send(datagrams[i].as_slice(), out);
            proof {
                let arrived = state.carried(all.take(i as int)).1;
                let more = state.carried(all.take(i as int)).0.sent(all[i as int]).1;
                assert(before + arrived + more =~= before + (arrived + more));
            }
            i = i + 1;
        }
        assert(all.take(i as int) =~= all);
    }

    /// Sends one datagram, dropping a random share of them. Appends to `out` what
    /// arrives by then.
    ///
    /// The loss must be random rather than every Nth packet: periodic loss
    /// guarantees that any frame larger than the period loses a fragment, which
    /// is far harsher than a real link and hides how the stream actually behaves.
    pub fn send(&mut self, datagram: &[u8], out: &mut Vec<Vec<u8>>)
        requires
            old(self).model().can_send_many(1),
        ensures
            final(self).model() == old(self).model().sent(datagram@).0,
            packet::contents(final(out)@) == packet::contents(old(out)@) + old(
                self,
            ).model().sent(datagram@).1,
    {
        let ghost state = self.model();
        if self.loss_percent > 0 {
            let roll: u64 = self.next_random();
            if roll % 100 < self.loss_percent as u64 {
                self.dropped = self.dropped + 1;
                assert(packet::contents(out@) + Seq::<Seq<u8>>::empty() =~= packet::contents(out@));
                return;
            }
        }
        self.tick = self.tick + 1;
        assert(self.model() =~= state.taking());

        // Jitter on a long path means packets do not arrive in the order they
        // were sent. Hold some back briefly so the receiver has to cope.
        let delay: u64 = if self.reorder > 0 {
            self.next_random() % (self.reorder + 1) as u64
        } else {
            0
        };
        let copy = vstd::slice::slice_to_vec(datagram);
        let ghost before = self.model();
        let ghost arrived = packet::contents(out@);
        if delay > 0 {
            self.reordered = self.reordered + 1;
            let ghost held = self.held@;
            self.held.push((self.tick + delay, copy));
            proof {
                assert(held_contents(self.held@) =~= held_contents(held).push(
                    ((self.tick + delay) as u64, datagram@),
                ));
            }
            self.release_due(out);
        } else {
            proof {
                packet::lemma_contents_push(out@, copy);
            }
            out.push(copy);
            self.release_due(out);
            assert(packet::contents(out@) =~= arrived + (seq![datagram@] + before.released().1));
        }
    }

    /// Appends to `out` anything whose hold has expired.
    fn release_due(&mut self, out: &mut Vec<Vec<u8>>)
        ensures
            final(self).model() == old(self).model().released().0,
            packet::contents(final(out)@) == packet::contents(old(out)@) + old(
                self,
            ).model().released().1,
    {
        let tick: u64 = self.tick;
        let mut i: usize = 0;
        let ghost all = held_contents(self.held@);
        proof {
            let now = held_contents(self.held@);
            assert(now.take(0) + kept(now.skip(0), tick) =~= kept(all, tick)) by {
                assert(now.skip(0) =~= all);
            }
            assert(now.skip(0) =~= all);
        }
        while i < self.held.len()
            invariant
                i <= self.held@.len(),
                tick == self.tick,
                all == old(self).model().held,
                self.model() == (LoopbackView {
                    held: held_contents(self.held@),
                    ..old(self).model()
                }),
                kept(all, tick) == held_contents(self.held@).take(i as int) + kept(
                    held_contents(self.held@).skip(i as int),
                    tick,
                ),
                packet::contents(old(out)@) + due(all, tick) == packet::contents(out@) + due(
                    held_contents(self.held@).skip(i as int),
                    tick,
                ),
            decreases self.held@.len() - i,
        {
            let ghost now = held_contents(self.held@);
            let ghost rest = now.skip(i as int);
            assert(rest.first() == now[i as int]);
            assert(rest.drop_first() =~= now.skip(i + 1));
            if self.held[i].0 <= tick {
                let (_, datagram) = self.held.remove(i);
                proof {
                    let after = held_contents(self.held@);
                    packet::lemma_contents_push(out@, datagram);
                    assert(after.skip(i as int) =~= now.skip(i + 1));
                    assert(after.take(i as int) =~= now.take(i as int));
                    let tail = due(now.skip(i + 1), tick);
                    assert(packet::contents(out@) + (seq![datagram@] + tail) =~= packet::contents(
                        out@,
                    ).push(datagram@) + tail);
                }
                out.push(datagram);
            } else {
                proof {
                    let tail = kept(now.skip(i + 1), tick);
                    assert(now.take(i as int) + (seq![now[i as int]] + tail) =~= now.take(i + 1)
                        + tail);
                }
                i = i + 1;
            }
        }
        proof {
            let now = held_contents(self.held@);
            assert(now.skip(i as int) =~= seq![]);
            assert(now.take(i as int) + Seq::<Held>::empty() =~= now);
            assert(packet::contents(out@) + Seq::<Seq<u8>>::empty() =~= packet::contents(out@));
        }
    }

    /// Appends to `out` everything still held, for the end of a run.
    pub fn flush(&mut self, out: &mut Vec<Vec<u8>>)
        ensures
            final(self).model() == (LoopbackView { held: seq![], ..old(self).model() }),
            packet::contents(final(out)@) == packet::contents(old(out)@) + bytes_of(
                old(self).model().held,
            ),
    {
        let ghost all = held_contents(self.held@);
        while self.held.len() > 0
            invariant
                self.model() == (LoopbackView {
                    held: held_contents(self.held@),
                    ..old(self).model()
                }),
                packet::contents(old(out)@) + bytes_of(all) == packet::contents(out@) + bytes_of(
                    held_contents(self.held@),
                ),
            decreases self.held@.len(),
        {
            let ghost now = held_contents(self.held@);
            let (_, datagram) = self.held.remove(0);
            proof {
                let after = held_contents(self.held@);
                packet::lemma_contents_push(out@, datagram);
                assert(bytes_of(now) =~= seq![datagram@] + bytes_of(after));
                assert(packet::contents(out@) + (seq![datagram@] + bytes_of(after))
                    =~= packet::contents(out@).push(datagram@) + bytes_of(after));
            }
            out.push(datagram);
        }
        proof {
            assert(held_contents(self.held@) =~= seq![]);
            assert(packet::contents(out@) + bytes_of(held_contents(self.held@))
                =~= packet::contents(out@));
        }
    }

    /// xorshift64*, enough for shaping test traffic.
    fn next_random(&mut self) -> (number: u64)
        ensures
            final(self).model() == old(self).model().after_draw(),
            number == drawn(final(self).model().rng),
            number < 0x1_0000_0000,
    {
        let a: u64 = self.rng ^ (self.rng >> 12u64);
        let b: u64 = a ^ (a << 25u64);
        self.rng = b ^ (b >> 27u64);
        let mixed: u64 = self.rng.wrapping_mul(0x2545_F491_4F6C_DD1D);
        assert(mixed >> 32u64 < 0x1_0000_0000) by (bit_vector);
        mixed >> 32u64
    }
}

/// The contents of a list, whatever their order, when it is split in two.
proof fn lemma_contents_add(a: Seq<Seq<u8>>, b: Seq<Seq<u8>>)
    ensures
        (a + b).to_multiset() == a.to_multiset().add(b.to_multiset()),
{
    vstd::seq_lib::lemma_multiset_commutative(a, b);
}

/// What is due and what is kept make up what was held.
proof fn lemma_due_and_kept(held: Seq<Held>, tick: u64)
    ensures
        (due(held, tick) + bytes_of(kept(held, tick))).to_multiset() == bytes_of(
            held,
        ).to_multiset(),
    decreases held.len(),
{
    if held.len() == 0 {
        assert(due(held, tick) + bytes_of(kept(held, tick)) =~= bytes_of(held));
    } else {
        let rest = held.drop_first();
        lemma_due_and_kept(rest, tick);
        let one = seq![held.first().1];
        let (d, k) = (due(rest, tick), bytes_of(kept(rest, tick)));
        assert(bytes_of(held) =~= one + bytes_of(rest));
        lemma_contents_add(one, bytes_of(rest));
        lemma_contents_add(d, k);
        if held.first().0 <= tick {
            assert(due(held, tick) + bytes_of(kept(held, tick)) =~= one + (d + k));
            lemma_contents_add(one, d + k);
        } else {
            assert(bytes_of(kept(held, tick)) =~= one + k);
            assert(due(held, tick) + bytes_of(kept(held, tick)) =~= d + (one + k));
            lemma_contents_add(d, one + k);
            lemma_contents_add(one, k);
            assert(d.to_multiset().add(one.to_multiset().add(k.to_multiset()))
                =~= one.to_multiset().add(d.to_multiset().add(k.to_multiset())));
        }
    }
}

/// Every datagram arrives once, or is still held, or was counted as lost: the
/// link neither invents nor repeats any.
pub proof fn law_nothing_is_lost_uncounted(link: LoopbackView, datagram: Seq<u8>)
    requires
        link.can_send_many(1),
    ensures
        ({
            let (after, out) = link.sent(datagram);
            if link.loses() {
                &&& out.len() == 0
                &&& after.held == link.held
                &&& after.dropped == link.dropped + 1
            } else {
                &&& (out + bytes_of(after.held)).to_multiset() == (bytes_of(link.held) + seq![
                    datagram,
                ]).to_multiset()
                &&& after.dropped == link.dropped
            }
        }),
{
    if !link.loses() {
        let taking = link.taking();
        let delay = taking.delay();
        let (after, out) = link.sent(datagram);
        let one = seq![datagram];
        if delay > 0 {
            let held = link.held.push(((taking.tick + delay) as u64, datagram));
            lemma_due_and_kept(held, taking.tick);
            assert(bytes_of(held) =~= bytes_of(link.held) + one);
        } else {
            lemma_due_and_kept(link.held, taking.tick);
            let late = due(link.held, taking.tick);
            let still = bytes_of(kept(link.held, taking.tick));
            assert(out + bytes_of(after.held) =~= one + (late + still));
            lemma_contents_add(one, late + still);
            lemma_contents_add(bytes_of(link.held), one);
            assert(one.to_multiset().add(bytes_of(link.held).to_multiset()) =~= bytes_of(
                link.held,
            ).to_multiset().add(one.to_multiset()));
        }
    }
}

/// A link without faults hands over every datagram at once, in order.
pub proof fn law_a_clean_link_is_transparent(link: LoopbackView, datagrams: Seq<Seq<u8>>)
    requires
        link.loss_percent == 0,
        link.reorder == 0,
        link.held.len() == 0,
    ensures
        link.carried(datagrams).1 == datagrams,
        link.carried(datagrams).0.held == link.held,
        link.carried(datagrams).0.dropped == link.dropped,
    decreases datagrams.len(),
{
    if datagrams.len() > 0 {
        law_a_clean_link_is_transparent(link, datagrams.drop_last());
        let before = link.carried(datagrams.drop_last()).0;
        lemma_carried_keeps_faults(link, datagrams.drop_last());
        assert(before.sent(datagrams.last()).1 =~= seq![datagrams.last()]);
        assert(before.sent(datagrams.last()).0.held =~= link.held);
        assert(datagrams.drop_last() + seq![datagrams.last()] =~= datagrams);
    } else {
        assert(link.carried(datagrams).1 =~= datagrams);
    }
}

proof fn lemma_carried_keeps_faults(link: LoopbackView, datagrams: Seq<Seq<u8>>)
    ensures
        link.carried(datagrams).0.loss_percent == link.loss_percent,
        link.carried(datagrams).0.reorder == link.reorder,
    decreases datagrams.len(),
{
    if datagrams.len() > 0 {
        lemma_carried_keeps_faults(link, datagrams.drop_last());
    }
}

/// Whether everything held is due within as many ticks as datagrams may be out of
/// order.
pub open spec fn is_timely(link: LoopbackView) -> bool {
    forall|i: int|
        0 <= i < link.held.len() ==> (#[trigger] link.held[i]).0 <= link.tick + link.reorder
}

proof fn lemma_kept_is_part(held: Seq<Held>, tick: u64, limit: int)
    requires
        forall|i: int| 0 <= i < held.len() ==> (#[trigger] held[i]).0 <= limit,
    ensures
        forall|i: int|
            0 <= i < kept(held, tick).len() ==> (#[trigger] kept(held, tick)[i]).0 <= limit,
    decreases held.len(),
{
    if held.len() > 0 {
        let rest = held.drop_first();
        assert forall|i: int| 0 <= i < rest.len() implies (#[trigger] rest[i]).0 <= limit by {
            assert(rest[i] == held[i + 1]);
        }
        lemma_kept_is_part(rest, tick, limit);
        assert(held[0].0 <= limit);
        let left = kept(held, tick);
        let below = kept(rest, tick);
        assert forall|i: int| 0 <= i < left.len() implies (#[trigger] left[i]).0 <= limit by {
            if held.first().0 <= tick {
                assert(left[i] == below[i]);
            } else if i > 0 {
                assert(left[i] == below[i - 1]);
            }
        }
    }
}

/// No datagram is held back for longer than the link may be out of order.
pub proof fn law_holds_are_bounded(link: LoopbackView, datagram: Seq<u8>)
    requires
        link.can_send_many(1),
        is_timely(link),
    ensures
        is_timely(link.sent(datagram).0),
{
    if !link.loses() {
        let taking = link.taking();
        let delay = taking.delay();
        let limit = taking.tick + link.reorder;
        let held = if delay > 0 {
            link.held.push(((taking.tick + delay) as u64, datagram))
        } else {
            link.held
        };
        assert forall|i: int| 0 <= i < held.len() implies (#[trigger] held[i]).0 <= limit by {
            if i < link.held.len() {
                assert(link.held[i].0 <= link.tick + link.reorder);
            }
        }
        lemma_kept_is_part(held, taking.tick, limit);
    }
}

/// The numbers drawn are those of xorshift64*: three shifts, a product, and the
/// upper half of it.
pub proof fn law_draws_are_those_of_the_generator(rng: u64)
    ensures
        ({
            let a = rng ^ (rng / 0x1000);
            let b = a ^ (((a * 0x200_0000) % 0x1_0000_0000_0000_0000) as u64);
            &&& shuffled(rng) == b ^ (b / 0x800_0000)
            &&& drawn(rng) == ((rng * 0x2545_F491_4F6C_DD1D) % 0x1_0000_0000_0000_0000)
                / 0x1_0000_0000
        }),
{
    let a = rng ^ (rng >> 12u64);
    let b = a ^ (a << 25u64);
    assert(rng >> 12u64 == rng / 0x1000) by (bit_vector);
    assert(b >> 27u64 == b / 0x800_0000) by (bit_vector);
    assert(a << 25u64 == ((a * 0x200_0000) % 0x1_0000_0000_0000_0000) as u64) by (bit_vector);
    let mixed = rng.wrapping_mul(0x2545_F491_4F6C_DD1D);
    assert(mixed >> 32u64 == mixed / 0x1_0000_0000) by (bit_vector);
}

/// Of a hundred numbers that can be drawn, as many lose a datagram as the link is to
/// lose in a hundred: it loses none at nothing, all at a hundred, and never spares at
/// a higher share what it loses at a lower.
pub proof fn law_loss_follows_its_share(link: LoopbackView, more: u32)
    requires
        link.loss_percent <= more,
    ensures
        link.loss_percent == 0 ==> !link.loses(),
        link.loss_percent >= 100 ==> link.loses(),
        link.loses() ==> (LoopbackView { loss_percent: more, ..link }).loses(),
        link.loss_percent > 0 ==> (link.loses() <==> drawn(shuffled(link.rng)) % 100
            < link.loss_percent),
{
}

proof fn lemma_due_is_filtered(held: Seq<Held>, tick: u64)
    ensures
        due(held, tick) == bytes_of(held.filter(|h: Held| h.0 <= tick)),
        kept(held, tick) == held.filter(|h: Held| h.0 > tick),
    decreases held.len(),
{
    let (now, later) = (|h: Held| h.0 <= tick, |h: Held| h.0 > tick);
    if held.len() == 0 {
        assert(held.filter(now) =~= seq![]) by {
            reveal(Seq::filter);
        }
        assert(held.filter(later) =~= seq![]) by {
            reveal(Seq::filter);
        }
        assert(bytes_of(held.filter(now)) =~= seq![]);
    } else {
        let first = seq![held.first()];
        let rest = held.drop_first();
        lemma_due_is_filtered(rest, tick);
        assert(held =~= first + rest);
        Seq::filter_distributes_over_add(first, rest, now);
        Seq::filter_distributes_over_add(first, rest, later);
        assert(first.drop_last() =~= seq![]);
        assert(first.filter(now) =~= if held.first().0 <= tick {
            first
        } else {
            seq![]
        }) by {
            reveal(Seq::filter);
            reveal_with_fuel(Seq::filter, 2);
        }
        assert(first.filter(later) =~= if held.first().0 > tick {
            first
        } else {
            seq![]
        }) by {
            reveal(Seq::filter);
            reveal_with_fuel(Seq::filter, 2);
        }
        assert(due(held, tick) =~= bytes_of(held.filter(now)));
        assert(kept(held, tick) =~= held.filter(later));
    }
}

/// What a datagram that is not lost brings about: it is let through at once or held
/// for a few ticks, which counts as reordered; behind it comes everything held that
/// is due by then, in the order it was held, and only the rest stays held.
pub proof fn law_a_datagram_goes_through_or_waits(link: LoopbackView, datagram: Seq<u8>)
    requires
        link.can_send_many(1),
        !link.loses(),
    ensures
        ({
            let (after, out) = link.sent(datagram);
            let tick = link.tick + 1;
            let rolled = if link.loss_percent > 0 {
                shuffled(link.rng)
            } else {
                link.rng
            };
            let delay = if link.reorder > 0 {
                drawn(shuffled(rolled)) as int % (link.reorder + 1)
            } else {
                0
            };
            let held = if delay > 0 {
                link.held.push(((tick + delay) as u64, datagram))
            } else {
                link.held
            };
            let late = bytes_of(held.filter(|h: Held| h.0 <= tick as u64));
            &&& after.tick == tick
            &&& after.rng == if link.reorder > 0 {
                shuffled(rolled)
            } else {
                rolled
            }
            &&& after.dropped == link.dropped
            &&& after.reordered == link.reordered + if delay > 0 {
                1int
            } else {
                0
            }
            &&& after.loss_percent == link.loss_percent
            &&& after.reorder == link.reorder
            &&& after.held == held.filter(|h: Held| h.0 > tick as u64)
            &&& delay == 0 ==> out == seq![datagram] + late
            &&& delay > 0 ==> out == late
        }),
{
    let tick = (link.tick + 1) as u64;
    let taking = link.taking();
    let delay = taking.delay();
    let held = if delay > 0 {
        link.held.push(((taking.tick + delay) as u64, datagram))
    } else {
        link.held
    };
    lemma_due_is_filtered(held, tick);
}

/// Datagrams are carried one after the other: what two runs bring is what one run
/// of both would.
pub proof fn law_runs_follow_each_other(
    link: LoopbackView,
    first: Seq<Seq<u8>>,
    second: Seq<Seq<u8>>,
)
    ensures
        link.carried(seq![]) == (link, Seq::<Seq<u8>>::empty()),
        link.carried(first + second).0 == link.carried(first).0.carried(second).0,
        link.carried(first + second).1 == link.carried(first).1 + link.carried(first).0.carried(
            second,
        ).1,
        second.len() == 1 ==> link.carried(second).0 == link.sent(second[0]).0 && link.carried(
            second,
        ).1 == link.sent(second[0]).1,
    decreases second.len(),
{
    let middle = link.carried(first).0;
    if second.len() == 0 {
        assert(first + second =~= first);
        assert(link.carried(first).1 + middle.carried(second).1 =~= link.carried(first).1);
    } else {
        let rest = second.drop_last();
        law_runs_follow_each_other(link, first, rest);
        assert((first + second).drop_last() =~= first + rest);
        assert((first + second).last() == second.last());
        let more = middle.carried(rest).0.sent(second.last()).1;
        assert(link.carried(first).1 + middle.carried(rest).1 + more =~= link.carried(first).1 + (
        middle.carried(rest).1 + more));
        if second.len() == 1 {
            assert(rest =~= seq![]);
            assert(link.carried(second).1 =~= link.sent(second[0]).1);
        }
    }
}

/// What is let go at the end is every datagram held, in the order it was held.
pub proof fn law_everything_held_comes_out_in_order(held: Seq<Held>, i: int)
    requires
        0 <= i < held.len(),
    ensures
        bytes_of(held).len() == held.len(),
        bytes_of(held)[i] == held[i].1,
{
}

/// A link starts with the faults it is to have, nothing held and nothing counted,
/// and with the same seed every time.
pub proof fn law_every_run_starts_the_same(loss_percent: u32, reorder: u32)
    ensures
        ({
            let link = LoopbackView::initial(loss_percent, reorder);
            &&& link.loss_percent == loss_percent
            &&& link.reorder == reorder
            &&& link.rng == 0x2545_F491_4F6C_DD1D
            &&& link.held.len() == 0
            &&& link.tick == 0 && link.dropped == 0 && link.reordered == 0
        }),
{
}

} // verus!
