//! Packing encoded video onto the wire, and getting it back off.
//!
//! Both ends of this live here rather than in the sender and receiver, so a
//! self-test exercises the same code the application runs.

use std::collections::BTreeMap;

use vstd::prelude::*;

use crate::chunks;
use crate::chunks::{count_blocks, take_block};
use crate::endian;
use crate::endian::append_bytes;
use crate::fec;
use crate::gf::{build_tables, Tables};
use crate::packet;
use crate::packet::{flags, read_params, write_params, Header, Kind, HEADER_LEN, MTU};
use crate::reassembly;
use crate::reassembly::Reassembler;

pub mod counting;
pub mod order;

verus! {

/// One compressed frame, borrowed from whatever the encoder produced.
pub struct Frame<'a> {
    pub data: &'a [u8],
    /// VPS/SPS/PPS. Sent with every frame: they total about a hundred bytes,
    /// and carrying them only on keyframes means one lost keyframe fragment
    /// leaves the receiver unable to build a decoder until the next one.
    pub params: &'a [Vec<u8>],
    pub keyframe: bool,
    pub pts_micros: u64,
}

/// A frame to be sent.
#[verifier::ext_equal]
pub struct SourceView {
    pub data: Seq<u8>,
    pub params: Seq<Seq<u8>>,
    pub keyframe: bool,
    pub pts_micros: u64,
}

impl<'a> Frame<'a> {
    pub open spec fn model(self) -> SourceView {
        SourceView {
            data: self.data@,
            params: packet::contents(self.params@),
            keyframe: self.keyframe,
            pts_micros: self.pts_micros,
        }
    }
}

impl SourceView {
    /// What is split across datagrams: the parameter sets, if any, then the data.
    pub open spec fn payload(self) -> Seq<u8> {
        if self.params.len() == 0 {
            self.data
        } else {
            packet::params_bytes(self.params) + self.data
        }
    }

    pub open spec fn blocks(self) -> Seq<Seq<u8>> {
        chunks::blocks(self.payload(), fec::BLOCK as nat)
    }

    /// The flags that every datagram of the frame carries.
    pub open spec fn flags(self) -> u8 {
        (if self.keyframe {
            flags::KEYFRAME
        } else {
            0
        }) | (if self.params.len() == 0 {
            0
        } else {
            flags::HAS_PARAMS
        })
    }

    /// The header of the datagram at `index`, with further flags `more`.
    pub open spec fn header(self, seq: u64, index: int, more: u8) -> Header {
        Header {
            kind: Kind::Video,
            fragment_index: index as u16,
            fragment_count: self.blocks().len() as u16,
            seq,
            pts_micros: self.pts_micros,
            flags: self.flags() | more,
            rate: None,
        }
    }

    /// The datagram that carries block `index`.
    pub open spec fn data_datagram(self, seq: u64, index: int) -> Seq<u8> {
        self.header(seq, index, 0).bytes() + fec::fragment_bytes(self.blocks()[index])
    }

    /// The datagram that carries parity block `level` of the group at `first`.
    pub open spec fn parity_datagram(self, seq: u64, first: int, level: int) -> Seq<u8> {
        self.header(seq, first, flags::PARITY).bytes() + seq![level as u8] + fec::parity_of(
            level as nat,
            reassembly::group_at(self.blocks(), first),
        )
    }

    /// The parity datagrams that follow block `n - 1`: one per level where it
    /// ends a group of more than one. A group of one is just a copy of the
    /// fragment, so it buys nothing and is not worth the bandwidth.
    pub open spec fn parity_after(self, seq: u64, n: int, levels: nat) -> Seq<Seq<u8>> {
        let first = reassembly::group_start(n - 1);
        if n == reassembly::group_end(self.blocks().len(), first) && n - first > 1 {
            Seq::new(levels, |level: int| self.parity_datagram(seq, first, level))
        } else {
            seq![]
        }
    }

    /// The datagrams of the first `n` blocks, each group's parity behind it.
    pub open spec fn datagrams_before(self, seq: u64, n: int, levels: nat) -> Seq<Seq<u8>>
        decreases n,
    {
        if n <= 0 {
            seq![]
        } else {
            self.datagrams_before(seq, n - 1, levels).push(self.data_datagram(seq, n - 1))
                + self.parity_after(seq, n, levels)
        }
    }

    /// All datagrams of the frame.
    pub open spec fn datagrams(self, seq: u64, levels: nat) -> Seq<Seq<u8>> {
        self.datagrams_before(seq, self.blocks().len() as int, levels)
    }
}

/// Numbers frames, splits them into datagrams, and adds parity.
pub struct Framer {
    seq: u64,
    /// Parity is emitted once per this many fragments. Zero disables it.
    fec_group: usize,
    /// Parity blocks per group: one repairs a single loss, two repair any pair.
    parity_blocks: usize,
    tables: Tables,
}

impl Default for Framer {
    fn default() -> (framer: Self)
        ensures
            framer.valid(),
            framer.next_seq() == 0,
            framer.has_fec(),
            framer.parity() == 1,
    {
        Framer { seq: 0, fec_group: fec::GROUP, parity_blocks: 1, tables: build_tables() }
    }
}

impl Framer {
    /// The number of the next frame.
    pub closed spec fn next_seq(self) -> u64 {
        self.seq
    }

    /// Whether parity is sent at all.
    pub closed spec fn has_fec(self) -> bool {
        self.fec_group > 0
    }

    /// Parity blocks per group, where parity is sent.
    pub closed spec fn parity(self) -> nat {
        self.parity_blocks as nat
    }

    /// Parity blocks that each group really carries.
    pub open spec fn levels(self) -> nat {
        if self.has_fec() {
            self.parity()
        } else {
            0
        }
    }

    pub closed spec fn valid(self) -> bool {
        &&& self.fec_group == 0 || self.fec_group == fec::GROUP
        &&& self.parity_blocks <= fec::MAX_PARITY
        &&& self.tables.valid()
    }

    pub fn new() -> (framer: Self)
        ensures
            framer.valid(),
            framer.next_seq() == 0,
            framer.has_fec(),
            framer.parity() == 1,
    {
        Framer::default()
    }

    /// Turns parity off, trading loss resilience for about 10% less traffic.
    pub fn without_fec() -> (framer: Self)
        ensures
            framer.valid(),
            framer.next_seq() == 0,
            !framer.has_fec(),
            framer.parity() == 1,
    {
        Framer { seq: 0, fec_group: 0, parity_blocks: 1, tables: build_tables() }
    }

    /// Sets how many parity blocks each group carries.
    ///
    /// One rebuilds a single lost fragment per group and costs about 10%. Two
    /// rebuilds any pair in a group and costs about 20%, which is worth paying
    /// only while the link is actually losing packets.
    pub fn set_parity(&mut self, blocks: usize)
        requires
            old(self).valid(),
        ensures
            final(self).valid(),
            final(self).next_seq() == old(self).next_seq(),
            final(self).has_fec() == old(self).has_fec(),
            final(self).parity() == if blocks <= fec::MAX_PARITY {
                blocks as nat
            } else {
                fec::MAX_PARITY as nat
            },
    {
        self.parity_blocks = if blocks <= fec::MAX_PARITY {
            blocks
        } else {
            fec::MAX_PARITY
        };
    }

    /// The sequence number of the next frame.
    pub fn upcoming(&self) -> (seq: u64)
        ensures
            seq == self.next_seq(),
    {
        self.seq
    }

    /// Appends the frame's datagrams to `out`, and a parity datagram per group
    /// and level. Returns the sequence number used.
    #[verifier::rlimit(30)]
    pub fn send(&mut self, frame: Frame<'_>, out: &mut Vec<Vec<u8>>) -> (seq: u64)
        requires
            old(self).valid(),
            old(self).next_seq() < u64::MAX,
        ensures
            final(self).valid(),
            seq == old(self).next_seq(),
            final(self).next_seq() == old(self).next_seq() + 1,
            final(self).has_fec() == old(self).has_fec(),
            final(self).parity() == old(self).parity(),
            packet::contents(final(out)@) == packet::contents(old(out)@) + frame.model().datagrams(
                old(self).next_seq(),
                old(self).levels(),
            ),
    {
        let ghost source = frame.model();
        let seq: u64 = self.seq;
        self.seq = self.seq + 1;
        let levels: usize = if self.fec_group > 0 {
            self.parity_blocks
        } else {
            0
        };

        let mut payload: Vec<u8> = Vec::new();
        let mut header_flags: u8 = 0;
        if frame.keyframe {
            header_flags = header_flags | flags::KEYFRAME;
        }
        if frame.params.len() > 0 {
            header_flags = header_flags | flags::HAS_PARAMS;
            write_params(frame.params, &mut payload);
        }
        append_bytes(&mut payload, frame.data);
        proof {
            lemma_flags();
            assert(payload@ =~= source.payload());
        }

        // Every fragment carries its own length, so a rebuilt one knows its
        // size. That costs two bytes and sets the usable block width.
        let count: usize = count_blocks(payload.len(), fec::BLOCK);
        let template = Header {
            kind: Kind::Video,
            fragment_index: 0,
            fragment_count: count as u16,
            seq,
            pts_micros: frame.pts_micros,
            flags: header_flags,
            rate: None,
        };
        let mut p: [u8; fec::PARITY_LEN] = [0u8;fec::PARITY_LEN];
        let mut q: [u8; fec::PARITY_LEN] = [0u8;fec::PARITY_LEN];
        let mut start: usize = 0;
        let mut index: usize = 0;
        let ghost blocks = source.blocks();
        proof {
            lemma_no_parity_yet(blocks, 0);
            assert(packet::contents(out@) + source.datagrams_before(seq, 0, levels as nat)
                =~= packet::contents(out@));
        }
        while index < count
            invariant
                index <= count,
                count == blocks.len(),
                blocks == source.blocks(),
                payload@ == source.payload(),
                levels <= 2,
                self.tables.valid(),
                template == source.header(seq, 0, 0),
                start <= index,
                index < count ==> start == reassembly::group_start(index as int),
                holds_parity(p@, 0, blocks.subrange(start as int, index as int)) || levels < 1,
                holds_parity(q@, 1, blocks.subrange(start as int, index as int)) || levels < 2,
                packet::contents(out@) == packet::contents(old(out)@) + source.datagrams_before(
                    seq,
                    index as int,
                    levels as nat,
                ),
            decreases count - index,
        {
            let chunk = take_block(payload.as_slice(), fec::BLOCK, index);
            assert(chunk@ == blocks[index as int]);
            proof {
                lemma_flags();
            }
            let ghost before = packet::contents(out@);
            emit_fragment(template, index, chunk, out);
            let ghost with_data = packet::contents(out@);
            assert(with_data =~= before.push(source.data_datagram(seq, index as int)));

            // Position within the group is what weights the second parity
            // block, and so what makes the two equations independent.
            if levels >= 1 {
                fec::accumulate_with(&self.tables, &mut p, chunk, index - start, 0);
                proof {
                    lemma_parity_grows(blocks, start as int, index as int, 0);
                }
            }
            if levels >= 2 {
                fec::accumulate_with(&self.tables, &mut q, chunk, index - start, 1);
                proof {
                    lemma_parity_grows(blocks, start as int, index as int, 1);
                }
            }
            if index + 1 - start == fec::GROUP || index + 1 == count {
                // A group of one is just a copy of the fragment, so it buys
                // nothing and is not worth the bandwidth.
                if index + 1 - start > 1 {
                    proof {
                        assert(blocks.subrange(start as int, index + 1) =~= reassembly::group_at(
                            blocks,
                            start as int,
                        ));
                    }
                    let ghost group = reassembly::group_at(blocks, start as int);
                    if levels >= 1 {
                        emit_parity(template, start, 0, &p, out);
                        proof {
                            assert(p@ =~= fec::parity_of(0, group));
                            assert(packet::contents(out@) =~= with_data.push(
                                source.parity_datagram(seq, start as int, 0),
                            ));
                        }
                    }
                    if levels >= 2 {
                        emit_parity(template, start, 1, &q, out);
                        proof {
                            assert(q@ =~= fec::parity_of(1, group));
                            assert(packet::contents(out@) =~= with_data.push(
                                source.parity_datagram(seq, start as int, 0),
                            ).push(source.parity_datagram(seq, start as int, 1)));
                        }
                    }
                }
                p = [0u8;fec::PARITY_LEN];
                q = [0u8;fec::PARITY_LEN];
                start = index + 1;
                proof {
                    lemma_no_parity_yet(blocks, start as int);
                }
            }
            proof {
                assert(packet::contents(out@) =~= with_data + source.parity_after(
                    seq,
                    index + 1,
                    levels as nat,
                ));
                assert(packet::contents(out@) =~= packet::contents(old(out)@)
                    + source.datagrams_before(seq, index + 1, levels as nat));
            }
            index = index + 1;
        }
        seq
    }
}

/// Whether a block holds parity `level` of the fragments seen so far.
spec fn holds_parity(block: Seq<u8>, level: nat, seen: Seq<Seq<u8>>) -> bool {
    forall|k: int|
        0 <= k < fec::PARITY_LEN ==> #[trigger] block[k] == fec::sum_at(
            level,
            fec::complete(seen),
            k,
        )
}

proof fn lemma_no_parity_yet(blocks: Seq<Seq<u8>>, at: int)
    requires
        0 <= at <= blocks.len(),
    ensures
        forall|level: nat, k: int| #[trigger]
            fec::sum_at(level, fec::complete(blocks.subrange(at, at)), k) == 0,
{
}

proof fn lemma_parity_grows(blocks: Seq<Seq<u8>>, start: int, index: int, level: nat)
    requires
        0 <= start <= index < blocks.len(),
    ensures
        forall|k: int| #[trigger]
            fec::sum_at(level, fec::complete(blocks.subrange(start, index + 1)), k) == fec::sum_at(
                level,
                fec::complete(blocks.subrange(start, index)),
                k,
            ) ^ fec::term(level, (index - start) as nat, blocks[index], k),
{
    let longer = fec::complete(blocks.subrange(start, index + 1));
    assert(longer.drop_last() =~= fec::complete(blocks.subrange(start, index)));
    assert(longer.last() == Some(blocks[index]));
}

proof fn lemma_flags()
    ensures
        0u8 | flags::KEYFRAME == flags::KEYFRAME,
        0u8 | flags::HAS_PARAMS == flags::HAS_PARAMS,
        forall|f: u8| #[trigger] (f | 0u8) == f,
{
    assert(0u8 | 0x01u8 == 0x01u8 && 0u8 | 0x02u8 == 0x02u8) by (bit_vector);
    assert forall|f: u8| #[trigger] (f | 0u8) == f by {
        assert(f | 0u8 == f) by (bit_vector);
    }
}

/// Appends the datagram of one fragment.
fn emit_fragment(template: Header, index: usize, chunk: &[u8], out: &mut Vec<Vec<u8>>)
    ensures
        packet::contents(final(out)@) == packet::contents(old(out)@).push(
            (Header { fragment_index: index as u16, ..template }).bytes() + fec::fragment_bytes(
                chunk@,
            ),
        ),
{
    let header = Header { fragment_index: index as u16, ..template };
    let mut head: [u8; HEADER_LEN] = [0u8;HEADER_LEN];
    header.write(&mut head);
    let mut body: Vec<u8> = Vec::new();
    fec::encode_fragment(chunk, &mut body);
    let mut datagram: Vec<u8> = Vec::new();
    append_bytes(&mut datagram, &head);
    append_bytes(&mut datagram, body.as_slice());
    assert(datagram@ =~= header.bytes() + fec::fragment_bytes(chunk@));
    proof {
        packet::lemma_contents_push(out@, datagram);
    }
    out.push(datagram);
}

/// Appends the datagram of one parity block. Its first byte says which parity
/// block it is, so P and Q can be told apart however they arrive.
fn emit_parity(
    template: Header,
    start: usize,
    level: u8,
    block: &[u8; fec::PARITY_LEN],
    out: &mut Vec<Vec<u8>>,
)
    ensures
        packet::contents(final(out)@) == packet::contents(old(out)@).push(
            (Header {
                fragment_index: start as u16,
                flags: template.flags | flags::PARITY,
                ..template
            }).bytes() + seq![level] + block@,
        ),
{
    let header = Header {
        fragment_index: start as u16,
        flags: template.flags | flags::PARITY,
        ..template
    };
    let mut head: [u8; HEADER_LEN] = [0u8;HEADER_LEN];
    header.write(&mut head);
    let mut datagram: Vec<u8> = Vec::new();
    append_bytes(&mut datagram, &head);
    datagram.push(level);
    append_bytes(&mut datagram, block);
    assert(datagram@ =~= header.bytes() + seq![level] + block@);
    proof {
        packet::lemma_contents_push(out@, datagram);
    }
    out.push(datagram);
}

impl SourceView {
    /// The frame as its datagrams describe it.
    pub open spec fn sent(self, seq: u64) -> reassembly::Sent {
        reassembly::Sent {
            seq,
            pts_micros: self.pts_micros,
            keyframe: self.keyframe,
            has_params: self.params.len() > 0,
            blocks: self.blocks(),
        }
    }

    /// Whether the number of fragments fits the header's two bytes.
    pub open spec fn is_countable(self) -> bool {
        self.blocks().len() <= u16::MAX
    }
}

/// The datagram as its header and its body.
pub open spec fn parsed(datagram: Seq<u8>) -> (Header, Seq<u8>) {
    (Header::opening(datagram)->0, datagram.skip(HEADER_LEN as int))
}

proof fn lemma_flag_bits(keyframe: bool, params: bool, more: u8)
    by (bit_vector)
    requires
        more == 0 || more == 0x80,
    ensures
        ({
            let f = (if keyframe {
                0x01u8
            } else {
                0u8
            }) | (if params {
                0x02u8
            } else {
                0u8
            }) | more;
            &&& (f & 0x01 != 0) == keyframe
            &&& (f & 0x02 != 0) == params
            &&& (f & 0x80 != 0) == (more == 0x80)
        }),
{
}

/// Every block of a frame fits a fragment.
pub proof fn lemma_blocks_fit(source: SourceView)
    ensures
        fec::fits(source.blocks()),
        source.blocks().len() >= 1,
        chunks::joined(source.blocks()) == source.payload(),
{
    let payload = source.payload();
    let size = fec::BLOCK as nat;
    assert forall|i: int| 0 <= i < source.blocks().len() implies (
    #[trigger] source.blocks()[i]).len() <= fec::BLOCK by {
        chunks::lemma_block_len(payload, size, i);
    }
    chunks::lemma_block_count_positive(payload.len(), size);
    chunks::law_blocks_join(payload, size);
}

/// Whether a datagram fits the MTU, parses, and is one of the frame's, with parity
/// only at the start of a group.
pub open spec fn is_sound(source: SourceView, seq: u64, datagram: Seq<u8>) -> bool {
    &&& datagram.len() <= MTU
    &&& Header::opening(datagram) matches Some(header) && header.kind == Kind::Video
    &&& source.sent(seq).owns(parsed(datagram))
    &&& reassembly::is_aligned(parsed(datagram))
}

proof fn lemma_data_datagram_is_sound(source: SourceView, seq: u64, index: int)
    requires
        source.is_countable(),
        0 <= index < source.blocks().len(),
    ensures
        is_sound(source, seq, source.data_datagram(seq, index)),
        reassembly::is_data(parsed(source.data_datagram(seq, index)), index),
{
    let header = source.header(seq, index, 0);
    let body = fec::fragment_bytes(source.blocks()[index]);
    lemma_blocks_fit(source);
    assert(source.blocks()[index].len() <= fec::BLOCK);
    packet::law_header_roundtrips(header, body);
    fec::law_fragments_roundtrip(source.blocks()[index]);
    lemma_flag_bits(source.keyframe, source.params.len() > 0, 0);
}

proof fn lemma_parity_datagram_is_sound(source: SourceView, seq: u64, first: int, level: int)
    requires
        source.is_countable(),
        0 <= first < source.blocks().len(),
        first % fec::GROUP as int == 0,
        0 <= level < 2,
    ensures
        is_sound(source, seq, source.parity_datagram(seq, first, level)),
        reassembly::is_parity(
            parsed(source.parity_datagram(seq, first, level)),
            level as u8,
            first,
        ),
{
    let header = source.header(seq, first, flags::PARITY);
    let block = fec::parity_of(level as nat, reassembly::group_at(source.blocks(), first));
    let body = seq![level as u8] + block;
    let datagram = source.parity_datagram(seq, first, level);
    packet::law_header_roundtrips(header, body);
    assert(datagram =~= header.bytes() + body);
    assert(body.skip(1) =~= block);
    lemma_flag_bits(source.keyframe, source.params.len() > 0, flags::PARITY);
}

proof fn lemma_datagrams_before_are_sound(source: SourceView, seq: u64, n: int, levels: nat)
    requires
        source.is_countable(),
        0 <= n <= source.blocks().len(),
        levels <= 2,
    ensures
        forall|d: int|
            0 <= d < source.datagrams_before(seq, n, levels).len() ==> is_sound(
                source,
                seq,
                #[trigger] source.datagrams_before(seq, n, levels)[d],
            ),
    decreases n,
{
    if n > 0 {
        let shorter = source.datagrams_before(seq, n - 1, levels);
        let all = source.datagrams_before(seq, n, levels);
        let parity = source.parity_after(seq, n, levels);
        lemma_datagrams_before_are_sound(source, seq, n - 1, levels);
        assert forall|d: int| 0 <= d < all.len() implies is_sound(
            source,
            seq,
            #[trigger] all[d],
        ) by {
            if d < shorter.len() {
                assert(all[d] == shorter[d]);
            } else if d == shorter.len() {
                assert(all[d] == source.data_datagram(seq, n - 1));
                lemma_data_datagram_is_sound(source, seq, n - 1);
            } else {
                let level = d - shorter.len() - 1;
                assert(all[d] == parity[level]);
                lemma_parity_datagram_is_sound(source, seq, reassembly::group_start(n - 1), level);
            }
        }
    }
}

/// Every datagram of a frame fits the MTU, parses back, and carries a piece of
/// the frame under the frame's own number, flags and timestamp; parity stands at
/// the start of its group.
pub proof fn law_datagrams_are_sound(source: SourceView, seq: u64, levels: nat)
    requires
        source.is_countable(),
        levels <= fec::MAX_PARITY,
    ensures
        forall|d: int|
            0 <= d < source.datagrams(seq, levels).len() ==> is_sound(
                source,
                seq,
                #[trigger] source.datagrams(seq, levels)[d],
            ),
{
    lemma_datagrams_before_are_sound(source, seq, source.blocks().len() as int, levels);
}

/// A frame that fits one fragment is sent as one datagram: parity for a lone
/// fragment would just be a copy of it.
pub proof fn law_single_fragment_carries_no_parity(source: SourceView, seq: u64, levels: nat)
    requires
        source.blocks().len() == 1,
    ensures
        source.datagrams(seq, levels) == seq![source.data_datagram(seq, 0)],
{
    reveal_with_fuel(SourceView::datagrams_before, 2);
    assert(source.datagrams(seq, levels) =~= seq![source.data_datagram(seq, 0)]);
}

proof fn lemma_sent_before(source: SourceView, seq: u64, n: int, levels: nat)
    requires
        0 <= n <= source.blocks().len(),
    ensures
        forall|i: int|
            0 <= i < n ==> source.datagrams_before(seq, n, levels).contains(
                #[trigger] source.data_datagram(seq, i),
            ),
        forall|first: int, level: int|
            0 <= first && first % fec::GROUP as int == 0 && first + 1 < reassembly::group_end(
                source.blocks().len(),
                first,
            ) <= n && 0 <= level < levels ==> source.datagrams_before(seq, n, levels).contains(
                #[trigger] source.parity_datagram(seq, first, level),
            ),
    decreases n,
{
    if n > 0 {
        let shorter = source.datagrams_before(seq, n - 1, levels);
        let all = source.datagrams_before(seq, n, levels);
        let parity = source.parity_after(seq, n, levels);
        lemma_sent_before(source, seq, n - 1, levels);
        assert forall|i: int| 0 <= i < n implies all.contains(
            #[trigger] source.data_datagram(seq, i),
        ) by {
            if i < n - 1 {
                let d = choose|d: int|
                    0 <= d < shorter.len() && shorter[d] == source.data_datagram(seq, i);
                assert(all[d] == shorter[d]);
            } else {
                assert(all[shorter.len() as int] == source.data_datagram(seq, i));
            }
        }
        assert forall|first: int, level: int|
            0 <= first && first % fec::GROUP as int == 0 && first + 1 < reassembly::group_end(
                source.blocks().len(),
                first,
            ) <= n && 0 <= level < levels implies all.contains(
            #[trigger] source.parity_datagram(seq, first, level),
        ) by {
            let wanted = source.parity_datagram(seq, first, level);
            if reassembly::group_end(source.blocks().len(), first) < n {
                let d = choose|d: int| 0 <= d < shorter.len() && shorter[d] == wanted;
                assert(all[d] == shorter[d]);
            } else {
                assert(reassembly::group_start(n - 1) == first);
                assert(all[shorter.len() + 1 + level] == parity[level]);
            }
        }
    }
}

/// Every block of a frame is sent, and every group of more than one block is
/// followed by its parity, one block per level.
pub proof fn law_everything_is_sent(source: SourceView, seq: u64, levels: nat)
    ensures
        forall|i: int|
            0 <= i < source.blocks().len() ==> source.datagrams(seq, levels).contains(
                #[trigger] source.data_datagram(seq, i),
            ),
        forall|first: int, level: int|
            0 <= first && first % fec::GROUP as int == 0 && first + 1 < reassembly::group_end(
                source.blocks().len(),
                first,
            ) && 0 <= level < levels ==> source.datagrams(seq, levels).contains(
                #[trigger] source.parity_datagram(seq, first, level),
            ),
{
    lemma_sent_before(source, seq, source.blocks().len() as int, levels);
}

/// What arrived, once a frame finished reassembling.
#[derive(Debug, PartialEq, Eq)]
pub enum Received {
    /// Still collecting fragments.
    Pending,
    /// Decodable. Parameter sets are present whenever they were carried.
    Frame {
        /// Frame number, which is increasing across released frames.
        seq: u64,
        params: Option<Vec<Vec<u8>>>,
        data: Vec<u8>,
        pts_micros: u64,
    },
    /// A frame completed but cannot be decoded yet, because no keyframe has
    /// been seen since the stream started or since a frame went missing. The
    /// caller should ask the sender for a keyframe.
    NeedKeyframe,
}

/// What a poll brought.
#[verifier::ext_equal]
pub enum ReceivedView {
    Pending,
    Frame { seq: u64, params: Option<Seq<Seq<u8>>>, data: Seq<u8>, pts_micros: u64 },
    NeedKeyframe,
}

/// The contents of parameter sets that may be there.
pub open spec fn sets_of(params: Option<Vec<Vec<u8>>>) -> Option<Seq<Seq<u8>>> {
    match params {
        Some(sets) => Some(packet::contents(sets@)),
        None => None,
    }
}

impl Received {
    pub open spec fn model(self) -> ReceivedView {
        match self {
            Received::Pending => ReceivedView::Pending,
            Received::Frame { seq, params, data, pts_micros } => ReceivedView::Frame {
                seq,
                params: sets_of(params),
                data: data@,
                pts_micros,
            },
            Received::NeedKeyframe => ReceivedView::NeedKeyframe,
        }
    }
}

/// Frames held waiting for an earlier one that has not arrived yet.
///
/// Video must be decoded in order, so a frame that completes early cannot
/// simply be shown: doing that strands its predecessor and forces a resync.
/// Three frames is 50 ms at 60 fps, which covers the reordering a long path
/// produces and is far cheaper than the freeze a resync causes while waiting
/// for the next keyframe.
pub const REORDER_WINDOW: usize = 3;

/// A frame held back until its turn.
struct Staged {
    params: Option<Vec<Vec<u8>>>,
    data: Vec<u8>,
    pts_micros: u64,
    keyframe: bool,
}

/// A frame held back until its turn.
#[verifier::ext_equal]
pub struct StagedView {
    pub params: Option<Seq<Seq<u8>>>,
    pub data: Seq<u8>,
    pub pts_micros: u64,
    pub keyframe: bool,
}

impl Staged {
    spec fn model(self) -> StagedView {
        StagedView {
            params: sets_of(self.params),
            data: self.data@,
            pts_micros: self.pts_micros,
            keyframe: self.keyframe,
        }
    }
}

/// The state of a depacketizer.
#[verifier::ext_equal]
pub struct DepacketizerView {
    pub reassembler: reassembly::ReassemblerView,
    pub have_params: bool,
    pub synced: bool,
    /// Next frame due for release, once one has completed.
    pub next_seq: Option<u64>,
    /// Completed frames waiting for their predecessors.
    pub staged: Map<u64, StagedView>,
    pub flushing: bool,
    pub resyncs: int,
    pub discarded: int,
    /// Frames that were there when their turn came, since the last loss report.
    pub window_completed: int,
    /// The first frame whose turn came since the last loss report.
    pub window_first: Option<u64>,
    /// The last frame whose turn came.
    pub window_last: u64,
}

impl DepacketizerView {
    /// A depacketizer that has seen nothing.
    pub open spec fn initial() -> DepacketizerView {
        DepacketizerView {
            reassembler: Reassembler::initial(),
            have_params: false,
            synced: false,
            next_seq: None,
            staged: Map::empty(),
            flushing: false,
            resyncs: 0,
            discarded: 0,
            window_completed: 0,
            window_first: None,
            window_last: 0,
        }
    }

    /// What every operation keeps: nothing is held that is already past, every
    /// turn since the last loss report lies in the loss window, and no more was
    /// given up on than had its turn.
    pub open spec fn valid(self) -> bool {
        &&& self.staged.dom().finite()
        &&& 0 <= self.resyncs <= self.discarded
        &&& match self.next_seq {
            Some(next) => self.discarded <= next,
            None => self.discarded == 0,
        }
        &&& forall|seq: u64| #[trigger]
            self.staged.contains_key(seq) ==> self.next_seq is Some && self.next_seq->0 <= seq
                && seq + reassembly::STALE_DISTANCE <= u64::MAX
        &&& self.window_completed >= 0
        &&& match self.window_first {
            Some(first) => {
                &&& self.next_seq == Some((self.window_last + 1) as u64)
                &&& self.window_last < u64::MAX
                &&& first <= self.window_last
                &&& self.window_completed <= self.window_last - first + 1
            },
            None => {
                &&& self.window_completed == 0
                &&& self.window_last == 0 || (self.next_seq is Some && self.window_last
                    < self.next_seq->0)
            },
        }
    }

    /// The state with the frame `seq` held back until its turn.
    pub open spec fn with_staged(self, seq: u64, frame: StagedView) -> DepacketizerView {
        DepacketizerView {
            flushing: false,
            next_seq: if self.next_seq is None {
                Some(seq)
            } else {
                self.next_seq
            },
            staged: self.staged.insert(seq, frame),
            ..self
        }
    }

    /// The state after a completed frame. One already past is a duplicate, or so
    /// late that it cannot be used; one whose parameter sets do not parse is
    /// unusable.
    pub open spec fn completed(self, frame: reassembly::FrameView) -> DepacketizerView {
        let seq = frame.header.seq;
        if self.next_seq is Some && seq < self.next_seq->0 {
            self
        } else if frame.header.flagged(flags::HAS_PARAMS) {
            match packet::params_opening(frame.data) {
                Some((sets, rest)) => self.with_staged(
                    seq,
                    StagedView {
                        params: Some(sets),
                        data: rest,
                        pts_micros: frame.header.pts_micros,
                        keyframe: frame.header.flagged(flags::KEYFRAME),
                    },
                ),
                None => self,
            }
        } else {
            self.with_staged(
                seq,
                StagedView {
                    params: None,
                    data: frame.data,
                    pts_micros: frame.header.pts_micros,
                    keyframe: frame.header.flagged(flags::KEYFRAME),
                },
            )
        }
    }

    /// The state after a datagram.
    pub open spec fn pushed(self, header: Header, body: Seq<u8>) -> DepacketizerView {
        let (reassembler, frame) = reassembly::arrived(self.reassembler, header, body);
        let state = DepacketizerView { reassembler, ..self };
        match frame {
            Some(frame) => state.completed(frame),
            None => state,
        }
    }

    /// The state once the turn of `seq` has come.
    pub open spec fn turned(self, seq: u64) -> DepacketizerView {
        DepacketizerView {
            next_seq: Some((seq + 1) as u64),
            window_first: if self.window_first is None {
                Some(seq)
            } else {
                self.window_first
            },
            window_last: if self.window_last < seq {
                seq
            } else {
                self.window_last
            },
            ..self
        }
    }

    /// The state after a poll, and what it brought.
    pub open spec fn polled(self) -> (DepacketizerView, ReceivedView) {
        if self.next_seq is None || self.staged.len() == 0 {
            (self, ReceivedView::Pending)
        } else {
            let next = self.next_seq->0;
            if !self.staged.contains_key(next) {
                if self.flushing || self.staged.len() > REORDER_WINDOW {
                    (
                        DepacketizerView {
                            synced: false,
                            resyncs: self.resyncs + 1,
                            discarded: self.discarded + 1,
                            ..self.turned(next)
                        },
                        ReceivedView::NeedKeyframe,
                    )
                } else {
                    (self, ReceivedView::Pending)
                }
            } else {
                let frame = self.staged[next];
                let state = DepacketizerView {
                    staged: self.staged.remove(next),
                    window_completed: self.window_completed + 1,
                    have_params: self.have_params || frame.params is Some,
                    synced: self.synced || frame.keyframe,
                    ..self.turned(next)
                };
                if state.have_params && state.synced {
                    (
                        state,
                        ReceivedView::Frame {
                            seq: next,
                            params: frame.params,
                            data: frame.data,
                            pts_micros: frame.pts_micros,
                        },
                    )
                } else {
                    (
                        DepacketizerView { discarded: self.discarded + 1, ..state },
                        ReceivedView::NeedKeyframe,
                    )
                }
            }
        }
    }

    /// How many turns have come since the last loss report.
    pub open spec fn turns(self) -> int {
        match self.window_first {
            Some(first) => self.window_last - first + 1,
            None => 0,
        }
    }
}

/// Frames counted since the previous loss report.
#[derive(Debug, Clone, Copy, PartialEq, Eq, Structural)]
pub struct Loss {
    /// Frames that were there when their turn came.
    pub completed: u64,
    /// Frames whose turn came.
    pub expected: u64,
}

/// Reassembles frames, puts them back in order, and tracks whether the stream
/// can actually be decoded.
pub struct Depacketizer {
    reassembler: Reassembler,
    have_params: bool,
    synced: bool,
    /// Next frame sequence due for release.
    next_seq: Option<u64>,
    /// Completed frames waiting for their predecessors.
    staged: BTreeMap<u64, Staged>,
    /// Stop waiting on gaps and release everything held.
    flushing: bool,
    /// Times a missing frame forced the stream to wait for a new keyframe.
    pub resyncs: u64,
    /// Frames dropped because nothing could decode them yet.
    pub discarded: u64,
    /// Frames that finished reassembly since the last loss report.
    window_completed: u64,
    /// Sequence range covered by the current loss window.
    window_first: Option<u64>,
    window_last: u64,
}

impl Default for Depacketizer {
    fn default() -> (depacketizer: Self)
        ensures
            depacketizer.valid(),
            depacketizer.model() == DepacketizerView::initial(),
    {
        Depacketizer::new()
    }
}

impl Depacketizer {
    pub closed spec fn model(self) -> DepacketizerView {
        DepacketizerView {
            reassembler: self.reassembler.model(),
            have_params: self.have_params,
            synced: self.synced,
            next_seq: self.next_seq,
            staged: self.staged@.map_values(|frame: Staged| frame.model()),
            flushing: self.flushing,
            resyncs: self.resyncs as int,
            discarded: self.discarded as int,
            window_completed: self.window_completed as int,
            window_first: self.window_first,
            window_last: self.window_last,
        }
    }

    /// What every operation keeps.
    pub closed spec fn valid(self) -> bool {
        self.reassembler.valid() && self.model().valid()
    }

    /// A valid depacketizer's state is valid.
    pub proof fn lemma_valid(self)
        requires
            self.valid(),
        ensures
            self.model().valid(),
            self.model().reassembler.valid(),
    {
        self.reassembler.lemma_valid();
    }

    pub fn new() -> (depacketizer: Self)
        ensures
            depacketizer.valid(),
            depacketizer.model() == DepacketizerView::initial(),
    {
        let depacketizer = Depacketizer {
            reassembler: Reassembler::new(),
            have_params: false,
            synced: false,
            next_seq: None,
            staged: BTreeMap::new(),
            flushing: false,
            resyncs: 0,
            discarded: 0,
            window_completed: 0,
            window_first: None,
            window_last: 0,
        };
        proof {
            assert(depacketizer.model().staged =~= Map::empty());
        }
        depacketizer
    }

    /// Whether the counters of reassembly can count what one more datagram may
    /// bring.
    pub fn has_headroom(&self) -> (fits: bool)
        requires
            self.valid(),
        ensures
            fits == self.model().reassembler.has_headroom(),
    {
        self.reassembler.has_headroom()
    }

    /// Fragments rebuilt from parity rather than received.
    pub fn repaired(&self) -> (count: u64)
        ensures
            count == self.model().reassembler.repaired,
    {
        self.reassembler.repaired_count()
    }

    /// Times a missing frame forced the stream to wait for a new keyframe.
    pub fn resync_count(&self) -> (count: u64)
        ensures
            count == self.model().resyncs,
    {
        self.resyncs
    }

    /// Frames dropped because nothing could decode them yet.
    pub fn discarded_count(&self) -> (count: u64)
        ensures
            count == self.model().discarded,
    {
        self.discarded
    }

    /// Frames lost since the previous call, and resets the window.
    ///
    /// Derived from gaps in the sequence numbers, because a frame that loses
    /// any fragment never surfaces at all. One frame tells nothing about a loss
    /// rate.
    pub fn take_loss(&mut self) -> (loss: Option<Loss>)
        requires
            old(self).valid(),
        ensures
            final(self).valid(),
            final(self).model() == (DepacketizerView {
                window_first: None,
                window_completed: 0,
                ..old(self).model()
            }),
            loss is Some <==> old(self).model().turns() >= 2,
            loss matches Some(l) ==> l.completed == old(self).model().window_completed && l.expected
                == old(self).model().turns(),
    {
        let first: u64 = match self.window_first {
            Some(first) => first,
            None => {
                return None;
            },
        };
        self.window_first = None;
        let expected: u64 = self.window_last - first + 1;
        let completed: u64 = self.window_completed;
        self.window_completed = 0;
        if expected < 2 {
            return None;
        }
        Some(Loss { completed, expected })
    }

    /// Stops waiting on missing frames and releases everything still held.
    ///
    /// For the end of a finite stream, where nothing more is coming and holding
    /// a gap open would simply strand the frames behind it.
    pub fn flush(&mut self)
        requires
            old(self).valid(),
        ensures
            final(self).valid(),
            final(self).model() == (DepacketizerView { flushing: true, ..old(self).model() }),
    {
        self.flushing = true;
    }
}

impl Depacketizer {
    /// Absorbs one datagram. Frames it completes are released by [`poll`].
    ///
    /// [`poll`]: Depacketizer::poll
    pub fn push(&mut self, header: Header, body: &[u8])
        requires
            old(self).valid(),
            old(self).model().reassembler.has_headroom(),
            header.seq + reassembly::STALE_DISTANCE <= u64::MAX,
            header.flagged(flags::PARITY) || fec::fragment_opening(body@) is None
                || header.in_range(),
        ensures
            final(self).valid(),
            final(self).model() == old(self).model().pushed(header, body@),
    {
        let ghost before = self.model();
        proof {
            self.reassembler.lemma_valid();
        }
        let frame = match self.reassembler.push(header, body) {
            Some(frame) => frame,
            None => {
                return;
            },
        };
        let ghost seen = frame.model();
        let seq: u64 = frame.header.seq;

        // Already released. A duplicate, or so late it cannot be used.
        if let Some(next) = self.next_seq {
            if seq < next {
                return;
            }
        }
        let keyframe: bool = frame.header.has(flags::KEYFRAME);
        let pts_micros: u64 = frame.header.pts_micros;
        let (params, data): (Option<Vec<Vec<u8>>>, Vec<u8>) = if frame.header.has(
            flags::HAS_PARAMS,
        ) {
            match read_params(frame.data.as_slice()) {
                Some((sets, rest)) => (Some(sets), vstd::slice::slice_to_vec(rest)),
                // A frame whose parameter blob will not parse is unusable.
                None => {
                    return;
                },
            }
        } else {
            (None, frame.data)
        };

        self.flushing = false;
        if self.next_seq.is_none() {
            self.next_seq = Some(seq);
        }
        let staged = Staged { params, data, pts_micros, keyframe };
        let ghost held = self.staged@;
        self.staged.insert(seq, staged);
        proof {
            assert(self.model().staged =~= before.staged.insert(seq, staged.model()));
        }
    }
}

impl Depacketizer {
    /// Returns the next frame due, in sequence order.
    ///
    /// Call until it reports [`Received::Pending`]: one arrival can release
    /// several frames at once when it fills a gap.
    pub fn poll(&mut self) -> (received: Received)
        requires
            old(self).valid(),
        ensures
            final(self).valid(),
            final(self).model() == old(self).model().polled().0,
            received.model() == old(self).model().polled().1,
    {
        let ghost before = self.model();
        let ghost held = self.staged@;
        let next: u64 = match self.next_seq {
            Some(next) => next,
            None => {
                return Received::Pending;
            },
        };
        assert(before.staged.dom() =~= held.dom());

        // Nothing held means nothing to release or give up on, whatever the
        // gap policy says.
        if self.staged.len() == 0 {
            return Received::Pending;
        }
        proof {
            let seq = held.dom().choose();
            assert(before.staged.contains_key(seq));
            assert(next <= seq);
        }
        let frame = match self.staged.remove(&next) {
            Some(frame) => frame,
            None => {
                assert(self.staged@ =~= held);
                // Wait for the missing frame while the backlog stays small. Past
                // that it is lost for good, and everything after it references
                // pictures we will never have.
                if self.flushing || self.staged.len() > REORDER_WINDOW {
                    // Counted in the window's range but not among its arrivals,
                    // which is exactly what makes it register as loss.
                    self.mark_window(next);
                    self.next_seq = Some(next + 1);
                    self.synced = false;
                    self.resyncs = self.resyncs + 1;
                    self.discarded = self.discarded + 1;
                    return Received::NeedKeyframe;
                }
                return Received::Pending;
            },
        };
        proof {
            assert(self.model().staged =~= before.staged.remove(next));
        }

        // It arrived, so it counts as delivered even if nothing can decode it
        // yet; decodability is the sync layer's concern.
        self.mark_window(next);
        self.window_completed = self.window_completed + 1;

        self.next_seq = Some(next + 1);
        if frame.params.is_some() {
            self.have_params = true;
        }
        if frame.keyframe {
            self.synced = true;
        }
        if !(self.have_params && self.synced) {
            self.discarded = self.discarded + 1;
            return Received::NeedKeyframe;
        }
        Received::Frame {
            seq: next,
            params: frame.params,
            data: frame.data,
            pts_micros: frame.pts_micros,
        }
    }

    /// Widens the loss window to hold this sequence number.
    fn mark_window(&mut self, seq: u64)
        ensures
            final(self).model() == (DepacketizerView {
                window_first: if old(self).model().window_first is None {
                    Some(seq)
                } else {
                    old(self).model().window_first
                },
                window_last: if old(self).model().window_last < seq {
                    seq
                } else {
                    old(self).model().window_last
                },
                ..old(self).model()
            }),
            final(self).reassembler == old(self).reassembler,
            final(self).staged@ == old(self).staged@,
            final(self).window_completed == old(self).window_completed,
    {
        if self.window_first.is_none() {
            self.window_first = Some(seq);
        }
        if self.window_last < seq {
            self.window_last = seq;
        }
    }
}

/// What is kept of the state, whatever a datagram holds.
pub proof fn lemma_pushed_is_valid(state: DepacketizerView, header: Header, body: Seq<u8>)
    requires
        state.valid(),
        state.reassembler.valid(),
        header.seq + reassembly::STALE_DISTANCE <= u64::MAX,
    ensures
        state.pushed(header, body).valid(),
        state.pushed(header, body).reassembler.valid(),
        state.next_seq is Some ==> state.pushed(header, body).next_seq == state.next_seq,
{
    let (after, frame) = reassembly::arrived(state.reassembler, header, body);
    assert(after.valid());
    assert(frame matches Some(f) ==> f.header.seq == header.seq);
}

/// What is kept of the state by a poll.
pub proof fn lemma_polled_is_valid(state: DepacketizerView)
    requires
        state.valid(),
    ensures
        state.polled().0.valid(),
        state.polled().0.reassembler == state.reassembler,
        state.next_seq is Some ==> state.polled().0.next_seq is Some && state.next_seq->0
            <= state.polled().0.next_seq->0,
        state.polled().1 matches ReceivedView::Frame { seq, .. } ==> state.next_seq == Some(seq)
            && state.polled().0.next_seq->0 > seq,
{
    if state.next_seq is Some && state.staged.len() > 0 {
        let next = state.next_seq->0;
        let some = state.staged.dom().choose();
        assert(state.staged.contains_key(some));
        assert(next <= some);
        if !state.staged.contains_key(next) {
            assert forall|seq: u64| #[trigger]
                state.staged.contains_key(seq) implies (next + 1) as u64 <= seq by {}
        }
    }
}

/// A poll that brings something leaves room to count on.
pub proof fn lemma_released_is_in_range(state: DepacketizerView)
    requires
        state.valid(),
        !(state.polled().1 is Pending),
    ensures
        state.next_seq is Some,
        state.next_seq->0 < u64::MAX,
        state.polled().0.next_seq == Some((state.next_seq->0 + 1) as u64),
{
    let some = state.staged.dom().choose();
    assert(state.staged.contains_key(some));
}

/// Something done to a depacketizer.
pub enum Step {
    Datagram { header: Header, body: Seq<u8> },
    Poll,
    Flush,
    TakeLoss,
}

impl Step {
    /// The state after this step.
    pub open spec fn apply(self, state: DepacketizerView) -> DepacketizerView {
        match self {
            Step::Datagram { header, body } => state.pushed(header, body),
            Step::Poll => state.polled().0,
            Step::Flush => DepacketizerView { flushing: true, ..state },
            Step::TakeLoss => DepacketizerView {
                window_first: None,
                window_completed: 0,
                ..state
            },
        }
    }

    /// The number of the frame that this step releases, if it releases one.
    pub open spec fn release(self, state: DepacketizerView) -> Option<u64> {
        match self {
            Step::Poll => match state.polled().1 {
                ReceivedView::Frame { seq, .. } => Some(seq),
                _ => None,
            },
            _ => None,
        }
    }

    /// Whether the number in a datagram leaves room for what is counted from it.
    pub open spec fn is_countable(self) -> bool {
        self matches Step::Datagram { header, .. } ==> header.seq + reassembly::STALE_DISTANCE
            <= u64::MAX
    }
}

/// The numbers of the frames that several steps release, in order.
pub open spec fn released(state: DepacketizerView, steps: Seq<Step>) -> Seq<u64>
    decreases steps.len(),
{
    if steps.len() == 0 {
        seq![]
    } else {
        let rest = released(steps.first().apply(state), steps.drop_first());
        match steps.first().release(state) {
            Some(seq) => seq![seq] + rest,
            None => rest,
        }
    }
}

/// Whatever arrives, in whatever order and however often, frames come out in
/// rising order, and none comes out twice.
pub proof fn law_frames_are_released_in_order(state: DepacketizerView, steps: Seq<Step>)
    requires
        state.valid(),
        state.reassembler.valid(),
        forall|i: int| 0 <= i < steps.len() ==> (#[trigger] steps[i]).is_countable(),
    ensures
        forall|i: int, j: int|
            0 <= i < j < released(state, steps).len() ==> released(state, steps)[i] < released(
                state,
                steps,
            )[j],
        state.next_seq matches Some(next) ==> forall|i: int|
            0 <= i < released(state, steps).len() ==> next <= released(state, steps)[i],
    decreases steps.len(),
{
    if steps.len() > 0 {
        let first = steps.first();
        let rest = steps.drop_first();
        let after = first.apply(state);
        assert(steps[0].is_countable());
        match first {
            Step::Datagram { header, body } => lemma_pushed_is_valid(state, header, body),
            Step::Poll => lemma_polled_is_valid(state),
            _ => {},
        }
        assert forall|i: int| 0 <= i < rest.len() implies (#[trigger] rest[i]).is_countable() by {
            assert(rest[i] == steps[i + 1]);
        }
        law_frames_are_released_in_order(after, rest);
        let tail = released(after, rest);
        assert(first.release(state) matches Some(seq) ==> released(state, steps) =~= seq![seq]
            + tail);
    }
}

/// A frame comes out only while the stream can be decoded: a keyframe has had its
/// turn since the last frame that was given up, and parameter sets have been seen.
/// Giving a frame up takes that away again, and a keyframe that carries its
/// parameter sets restores it.
pub proof fn law_release_needs_a_keyframe(state: DepacketizerView)
    requires
        state.next_seq is Some,
        state.staged.len() > 0,
    ensures
        ({
            let next = state.next_seq->0;
            let here = state.staged.contains_key(next);
            let frame = state.staged[next];
            let (after, received) = state.polled();
            &&& received is Frame ==> here && after.synced && after.have_params && received == (
            ReceivedView::Frame {
                seq: next,
                params: frame.params,
                data: frame.data,
                pts_micros: frame.pts_micros,
            })
            &&& after.synced ==> state.synced || (here && frame.keyframe)
            &&& after.have_params ==> state.have_params || (here && frame.params is Some)
            &&& here && !frame.keyframe && !state.synced ==> received is NeedKeyframe
            &&& here && frame.keyframe && frame.params is Some ==> received is Frame
            &&& !here && received is NeedKeyframe ==> !after.synced && after.resyncs
                == state.resyncs + 1
        }),
{
}

/// A frame number whose turn has come: the frame that was held for it, or none if
/// it was given up as missing, and what the poll that took it up brought.
#[verifier::ext_equal]
pub struct Turn {
    pub seq: u64,
    pub frame: Option<StagedView>,
    pub received: ReceivedView,
}

impl Step {
    /// The turn that this step brings, if it is a poll that brings something.
    pub open spec fn turn(self, state: DepacketizerView) -> Option<Turn> {
        if self is Poll && !(state.polled().1 is Pending) {
            let next = state.next_seq->0;
            Some(
                Turn {
                    seq: next,
                    frame: if state.staged.contains_key(next) {
                        Some(state.staged[next])
                    } else {
                        None
                    },
                    received: state.polled().1,
                },
            )
        } else {
            None
        }
    }
}

/// The state after several steps.
pub open spec fn after_steps(state: DepacketizerView, steps: Seq<Step>) -> DepacketizerView
    decreases steps.len(),
{
    if steps.len() == 0 {
        state
    } else {
        steps.last().apply(after_steps(state, steps.drop_last()))
    }
}

/// The turns that several steps bring, in order.
pub open spec fn turns_of(state: DepacketizerView, steps: Seq<Step>) -> Seq<Turn>
    decreases steps.len(),
{
    if steps.len() == 0 {
        seq![]
    } else {
        let earlier = turns_of(state, steps.drop_last());
        match steps.last().turn(after_steps(state, steps.drop_last())) {
            Some(turn) => earlier.push(turn),
            None => earlier,
        }
    }
}

/// Whether turn `i` took up a keyframe, and no frame was given up since.
pub open spec fn syncs(turns: Seq<Turn>, i: int) -> bool {
    &&& 0 <= i < turns.len()
    &&& turns[i].frame is Some
    &&& turns[i].frame->0.keyframe
    &&& forall|j: int| i <= j < turns.len() ==> (#[trigger] turns[j]).frame is Some
}

/// Whether a keyframe was taken up and no frame was given up since.
pub open spec fn is_synced(turns: Seq<Turn>) -> bool {
    exists|i: int| #[trigger] syncs(turns, i)
}

/// Whether turn `i` took up a frame that carries parameter sets.
pub open spec fn brings_params(turns: Seq<Turn>, i: int) -> bool {
    0 <= i < turns.len() && turns[i].frame is Some && turns[i].frame->0.params is Some
}

/// Whether a frame that carries parameter sets was taken up.
pub open spec fn has_seen_params(turns: Seq<Turn>) -> bool {
    exists|i: int| #[trigger] brings_params(turns, i)
}

/// One more turn, as it bears on what can be decoded.
proof fn lemma_one_more_turn(turns: Seq<Turn>, turn: Turn)
    ensures
        is_synced(turns.push(turn)) <==> turn.frame is Some && (is_synced(turns)
            || turn.frame->0.keyframe),
        has_seen_params(turns.push(turn)) <==> has_seen_params(turns) || (turn.frame is Some
            && turn.frame->0.params is Some),
{
    let all = turns.push(turn);
    let last = turns.len() as int;
    assert(all[last] == turn);
    assert forall|j: int| 0 <= j < last implies #[trigger] all[j] == turns[j] by {}
    if is_synced(all) {
        let i = choose|i: int| #[trigger] syncs(all, i);
        assert(all[last].frame is Some);
        if i < last {
            assert forall|j: int| i <= j < turns.len() implies (
            #[trigger] turns[j]).frame is Some by {
                assert(all[j].frame is Some);
            }
            assert(syncs(turns, i));
        }
    }
    if turn.frame is Some && is_synced(turns) {
        let i = choose|i: int| #[trigger] syncs(turns, i);
        assert(syncs(all, i));
    }
    if turn.frame is Some && turn.frame->0.keyframe {
        assert(syncs(all, last));
    }
    if has_seen_params(all) {
        let i = choose|i: int| #[trigger] brings_params(all, i);
        assert(i < last ==> brings_params(turns, i));
    }
    if has_seen_params(turns) {
        let i = choose|i: int| #[trigger] brings_params(turns, i);
        assert(brings_params(all, i));
    }
    if turn.frame is Some && turn.frame->0.params is Some {
        assert(brings_params(all, last));
    }
}

/// A step leaves a valid state.
proof fn lemma_step_is_valid(state: DepacketizerView, step: Step)
    requires
        state.valid(),
        state.reassembler.valid(),
        step.is_countable(),
    ensures
        step.apply(state).valid(),
        step.apply(state).reassembler.valid(),
        step.turn(state) is None ==> {
            &&& state.next_seq is Some ==> step.apply(state).next_seq == state.next_seq
            &&& step.apply(state).have_params == state.have_params
            &&& step.apply(state).synced == state.synced
        },
        step.turn(state) matches Some(turn) ==> {
            &&& state.next_seq == Some(turn.seq)
            &&& turn.seq < u64::MAX
            &&& step.apply(state).next_seq == Some((turn.seq + 1) as u64)
            &&& step.apply(state).have_params <==> state.have_params || (turn.frame is Some
                && turn.frame->0.params is Some)
            &&& step.apply(state).synced <==> turn.frame is Some && (state.synced
                || turn.frame->0.keyframe)
        },
{
    match step {
        Step::Datagram { header, body } => lemma_pushed_is_valid(state, header, body),
        Step::Poll => {
            lemma_polled_is_valid(state);
            if !(state.polled().1 is Pending) {
                lemma_released_is_in_range(state);
            }
        },
        _ => {},
    }
}

proof fn lemma_steps(state: DepacketizerView, steps: Seq<Step>)
    requires
        state.valid(),
        state.reassembler.valid(),
        forall|i: int| 0 <= i < steps.len() ==> (#[trigger] steps[i]).is_countable(),
    ensures
        after_steps(state, steps).valid(),
        after_steps(state, steps).reassembler.valid(),
        ({
            let turns = turns_of(state, steps);
            &&& turns.len() > 0 ==> {
                &&& after_steps(state, steps).next_seq == Some((turns.last().seq + 1) as u64)
                &&& turns.last().seq < u64::MAX
            }
            &&& forall|i: int|
                0 <= i < turns.len() ==> (#[trigger] turns[i]).seq == turns[0].seq + i
        }),
    decreases steps.len(),
{
    if steps.len() > 0 {
        let rest = steps.drop_last();
        assert forall|i: int| 0 <= i < rest.len() implies (#[trigger] rest[i]).is_countable() by {
            assert(rest[i] == steps[i]);
        }
        lemma_steps(state, rest);
        assert(steps[steps.len() - 1].is_countable());
        lemma_step_is_valid(after_steps(state, rest), steps.last());
        let earlier = turns_of(state, rest);
        let turns = turns_of(state, steps);
        assert forall|i: int| 0 <= i < turns.len() implies (#[trigger] turns[i]).seq
            == turns[0].seq + i by {
            if i < earlier.len() {
                assert(turns[i] == earlier[i]);
                assert(turns[0] == earlier[0]);
            } else if earlier.len() > 0 {
                assert(earlier[earlier.len() - 1].seq == earlier[0].seq + earlier.len() - 1);
                assert(turns[0] == earlier[0]);
            }
        }
    }
}

/// Numbers have their turn one after another, none left out and none twice, and
/// each result of a poll other than `Pending` uses up exactly one, as `Pending`
/// uses up none. A released frame carries the number of its turn; so between two
/// frames that come out one after the other there are exactly as many
/// `NeedKeyframe` as there are numbers between theirs.
pub proof fn law_each_result_takes_one_turn(
    state: DepacketizerView,
    steps: Seq<Step>,
    first: int,
    second: int,
)
    requires
        state.valid(),
        state.reassembler.valid(),
        forall|i: int| 0 <= i < steps.len() ==> (#[trigger] steps[i]).is_countable(),
        0 <= first < second < turns_of(state, steps).len(),
        turns_of(state, steps)[first].received is Frame,
        turns_of(state, steps)[second].received is Frame,
        forall|i: int|
            first < i < second ==> !((#[trigger] turns_of(state, steps)[i]).received is Frame),
    ensures
        ({
            let turns = turns_of(state, steps);
            let (s1, s2) = (turns[first].received->seq, turns[second].received->seq);
            let between = turns.subrange(first + 1, second);
            &&& s1 == turns[first].seq
            &&& s2 == turns[second].seq
            &&& between.len() == s2 - s1 - 1
            &&& forall|i: int|
                0 <= i < between.len() ==> (#[trigger] between[i]).received is NeedKeyframe
                    && between[i].seq == s1 + 1 + i
        }),
        after_steps(state, steps).polled().1 is Pending ==> after_steps(state, steps).polled().0
            == after_steps(state, steps),
{
    lemma_steps(state, steps);
    lemma_turns_bring_results(state, steps);
    let turns = turns_of(state, steps);
    let between = turns.subrange(first + 1, second);
    assert forall|i: int| 0 <= i < between.len() implies (
    #[trigger] between[i]).received is NeedKeyframe && between[i].seq == turns[first].seq + 1
        + i by {
        assert(between[i] == turns[first + 1 + i]);
    }
}

proof fn lemma_turns_bring_results(state: DepacketizerView, steps: Seq<Step>)
    ensures
        forall|i: int|
            #![trigger turns_of(state, steps)[i]]
            0 <= i < turns_of(state, steps).len() ==> {
                let turn = turns_of(state, steps)[i];
                &&& !(turn.received is Pending)
                &&& turn.received is Frame ==> turn.received->seq == turn.seq && turn.frame is Some
            },
    decreases steps.len(),
{
    if steps.len() > 0 {
        let rest = steps.drop_last();
        lemma_turns_bring_results(state, rest);
        let turns = turns_of(state, steps);
        assert forall|i: int|
            #![trigger turns[i]]
            0 <= i < turns.len() implies !(turns[i].received is Pending) && (
        turns[i].received is Frame ==> turns[i].received->seq == turns[i].seq
            && turns[i].frame is Some) by {
            if i < turns_of(state, rest).len() {
                assert(turns[i] == turns_of(state, rest)[i]);
            }
        }
    }
}

proof fn lemma_sync_follows_turns(steps: Seq<Step>)
    requires
        forall|i: int| 0 <= i < steps.len() ==> (#[trigger] steps[i]).is_countable(),
    ensures
        ({
            let state = after_steps(DepacketizerView::initial(), steps);
            let turns = turns_of(DepacketizerView::initial(), steps);
            &&& state.synced <==> is_synced(turns)
            &&& state.have_params <==> has_seen_params(turns)
        }),
    decreases steps.len(),
{
    let start = DepacketizerView::initial();
    if steps.len() > 0 {
        let rest = steps.drop_last();
        assert forall|i: int| 0 <= i < rest.len() implies (#[trigger] rest[i]).is_countable() by {
            assert(rest[i] == steps[i]);
        }
        lemma_sync_follows_turns(rest);
        lemma_steps(start, rest);
        assert(steps[steps.len() - 1].is_countable());
        let before = after_steps(start, rest);
        lemma_step_is_valid(before, steps.last());
        match steps.last().turn(before) {
            Some(turn) => lemma_one_more_turn(turns_of(start, rest), turn),
            None => {},
        }
    }
}

/// What a poll brings, whatever was pushed, polled and flushed since the start: a
/// frame that was held for its turn is released if, with it, some keyframe has
/// had its turn since the last number that was given up as missing, and some
/// frame that carries parameter sets has had its turn; otherwise a keyframe is
/// asked for. A number that nothing is held for never brings a frame.
pub proof fn law_release_follows_the_turns(steps: Seq<Step>)
    requires
        forall|i: int| 0 <= i < steps.len() ==> (#[trigger] steps[i]).is_countable(),
    ensures
        ({
            let state = after_steps(DepacketizerView::initial(), steps);
            let turns = turns_of(DepacketizerView::initial(), steps);
            match Step::Poll.turn(state) {
                Some(turn) => {
                    let now = turns.push(turn);
                    &&& turn.received is Frame <==> turn.frame is Some && is_synced(now)
                        && has_seen_params(now)
                    &&& turn.received is NeedKeyframe <==> !(turn.received is Frame)
                    &&& turn.received matches ReceivedView::Frame { seq, params, data, pts_micros }
                        ==> seq == turn.seq && params == turn.frame->0.params && data
                        == turn.frame->0.data && pts_micros == turn.frame->0.pts_micros
                },
                None => state.polled().1 is Pending,
            }
        }),
{
    let start = DepacketizerView::initial();
    let state = after_steps(start, steps);
    lemma_sync_follows_turns(steps);
    lemma_steps(start, steps);
    match Step::Poll.turn(state) {
        Some(turn) => {
            lemma_one_more_turn(turns_of(start, steps), turn);
            lemma_step_is_valid(state, Step::Poll);
        },
        None => {},
    }
}

/// A missing frame is waited for while at most three frames wait behind it, and
/// given up beyond that or once the stream is flushed.
pub proof fn law_a_gap_is_held_open(state: DepacketizerView)
    requires
        state.next_seq is Some,
        !state.staged.contains_key(state.next_seq->0),
        state.staged.len() > 0,
    ensures
        state.polled().1 is Pending <==> !state.flushing && state.staged.len() <= REORDER_WINDOW,
        state.polled().1 is Pending ==> state.polled().0 == state,
        state.polled().1 is NeedKeyframe <==> state.flushing || state.staged.len()
            > REORDER_WINDOW,
        state.flushing || state.staged.len() > REORDER_WINDOW ==> state.polled().0.next_seq
            == Some((state.next_seq->0 + 1) as u64),
{
}

/// The state after `count` polls.
pub open spec fn after_polls(state: DepacketizerView, count: nat) -> DepacketizerView
    decreases count,
{
    if count == 0 {
        state
    } else {
        after_polls(state, (count - 1) as nat).polled().0
    }
}

/// One poll and `count` more are the same as all of them.
pub proof fn lemma_polls_shift(state: DepacketizerView, count: nat)
    ensures
        after_polls(state.polled().0, count) == after_polls(state, count + 1),
    decreases count,
{
    if count > 0 {
        lemma_polls_shift(state, (count - 1) as nat);
    } else {
        assert(after_polls(state, 1) == after_polls(state, 0).polled().0);
    }
}

/// How many of the `count` numbers from `from` on nothing is held for.
pub open spec fn missing_from(staged: Map<u64, StagedView>, from: int, count: nat) -> nat
    decreases count,
{
    if count == 0 {
        0
    } else {
        missing_from(staged, from, (count - 1) as nat) + if staged.contains_key(
            (from + count - 1) as u64,
        ) {
            0nat
        } else {
            1
        }
    }
}

/// Whether `last` is the largest number held.
pub open spec fn is_last_held(state: DepacketizerView, last: u64) -> bool {
    &&& state.staged.contains_key(last)
    &&& forall|seq: u64| #[trigger] state.staged.contains_key(seq) ==> seq <= last
}

/// What is left once a flushed stream was polled `count` times, up to the largest
/// number held.
proof fn lemma_flushing(state: DepacketizerView, last: u64, count: nat)
    requires
        state.valid(),
        state.flushing,
        is_last_held(state, last),
        count <= last - state.next_seq->0 + 1,
    ensures
        ({
            let now = after_polls(state, count);
            let next = state.next_seq->0;
            &&& now.flushing
            &&& now.next_seq == Some((next + count) as u64)
            &&& now.staged == state.staged.restrict(Set::new(|seq: u64| seq >= next + count))
            &&& now.resyncs == state.resyncs + missing_from(state.staged, next as int, count)
            &&& count <= last - next ==> now.staged.len() > 0
        }),
    decreases count,
{
    let next = state.next_seq->0;
    let now = after_polls(state, count);
    if count == 0 {
        assert(now.staged =~= state.staged.restrict(Set::new(|seq: u64| seq >= next + count)));
    } else {
        lemma_flushing(state, last, (count - 1) as nat);
        let before = after_polls(state, (count - 1) as nat);
        let here = (next + count - 1) as u64;
        assert(before.staged.contains_key(here) == state.staged.contains_key(here));
        assert(now.staged =~= state.staged.restrict(Set::new(|seq: u64| seq >= next + count)));
    }
    if count <= last - next {
        assert(now.staged.dom().contains(last));
        assert(now.staged.dom().subset_of(state.staged.dom()));
        vstd::set_lib::lemma_len_subset(now.staged.dom(), state.staged.dom());
        if now.staged.dom().len() == 0 {
            assert(now.staged.dom() =~= Set::<u64>::empty());
        }
    }
}

/// Flushing releases everything that is held. From then on each poll takes up one
/// number after another, from the next one due up to the largest held: a number
/// that is missing asks for a keyframe and counts as a resync, one that is held is
/// released or asks for a keyframe and counts as none. Not one of these polls is
/// pending. Every poll after them is, and changes nothing.
pub proof fn law_a_flush_releases_everything(state: DepacketizerView, last: u64, count: nat)
    requires
        state.valid(),
        is_last_held(state, last),
    ensures
        ({
            let flushed = DepacketizerView { flushing: true, ..state };
            let next = state.next_seq->0;
            let turns = last - next + 1;
            let now = after_polls(flushed, count);
            let (after, received) = now.polled();
            let held = state.staged.contains_key((next + count) as u64);
            &&& state.next_seq is Some
            &&& next <= last
            &&& count < turns ==> {
                &&& now.next_seq == Some((next + count) as u64)
                &&& after.next_seq == Some((next + count + 1) as u64)
                &&& !(received is Pending)
                &&& !held ==> received is NeedKeyframe && after.resyncs == now.resyncs + 1
                &&& held ==> after.resyncs == now.resyncs && (received matches ReceivedView::Frame {
                    seq,
                    params,
                    data,
                    pts_micros,
                } ==> seq == next + count && params == state.staged[seq].params && data
                    == state.staged[seq].data && pts_micros == state.staged[seq].pts_micros)
            }
            &&& count >= turns ==> {
                &&& received is Pending
                &&& after == now
                &&& now == after_polls(flushed, turns as nat)
                &&& now.staged == Map::<u64, StagedView>::empty()
                &&& now.resyncs == state.resyncs + missing_from(
                    state.staged,
                    next as int,
                    turns as nat,
                )
            }
        }),
    decreases count,
{
    let flushed = DepacketizerView { flushing: true, ..state };
    let next = state.next_seq->0;
    assert(state.staged.contains_key(last));
    let turns = last - next + 1;
    assert(flushed.valid());
    if count <= turns {
        lemma_flushing(flushed, last, count);
        let now = after_polls(flushed, count);
        if count < turns {
            let here = (next + count) as u64;
            assert(now.staged.contains_key(here) == state.staged.contains_key(here));
        } else {
            assert(now.staged =~= Map::<u64, StagedView>::empty());
        }
    } else {
        law_a_flush_releases_everything(state, last, (count - 1) as nat);
    }
}

/// Loss is measured in turns: each frame whose turn comes counts once, and counts
/// as delivered exactly if it was there.
pub proof fn law_loss_counts_turns(state: DepacketizerView)
    requires
        state.valid(),
    ensures
        ({
            let (after, received) = state.polled();
            let turned = after.next_seq != state.next_seq;
            let here = state.next_seq is Some && state.staged.contains_key(state.next_seq->0);
            &&& after.turns() == state.turns() + if turned {
                1int
            } else {
                0
            }
            &&& after.window_completed == state.window_completed + if here {
                1int
            } else {
                0
            }
            &&& here ==> turned
            &&& received is Pending <==> !turned
            &&& after.window_completed <= after.turns()
        }),
{
    lemma_polled_is_valid(state);
    if state.next_seq is Some && state.staged.len() > 0 {
        let some = state.staged.dom().choose();
        assert(state.staged.contains_key(some));
    }
    if state.next_seq is Some && state.staged.contains_key(state.next_seq->0) {
        assert(state.staged.dom().contains(state.next_seq->0));
        assert(state.staged.dom().len() > 0) by {
            if state.staged.dom().len() == 0 {
                assert(state.staged.dom() =~= Set::empty());
            }
        }
    }
}

/// The turns that several steps bring since the last loss report among them.
pub open spec fn turns_since_report(state: DepacketizerView, steps: Seq<Step>) -> Seq<Turn>
    decreases steps.len(),
{
    if steps.len() == 0 || steps.last() is TakeLoss {
        seq![]
    } else {
        let earlier = turns_since_report(state, steps.drop_last());
        match steps.last().turn(after_steps(state, steps.drop_last())) {
            Some(turn) => earlier.push(turn),
            None => earlier,
        }
    }
}

/// How many turns took up a frame.
pub open spec fn taken_up(turns: Seq<Turn>) -> nat
    decreases turns.len(),
{
    if turns.len() == 0 {
        0
    } else {
        taken_up(turns.drop_last()) + if turns.last().frame is Some {
            1nat
        } else {
            0
        }
    }
}

/// A loss report tells, over any run of steps, how many numbers had their turn
/// since the one before, and how many of those brought a frame: the rest were
/// given up.
pub proof fn law_loss_is_what_was_given_up(steps: Seq<Step>)
    requires
        forall|i: int| 0 <= i < steps.len() ==> (#[trigger] steps[i]).is_countable(),
    ensures
        ({
            let state = after_steps(DepacketizerView::initial(), steps);
            let turns = turns_since_report(DepacketizerView::initial(), steps);
            &&& state.turns() == turns.len()
            &&& state.window_completed == taken_up(turns)
        }),
    decreases steps.len(),
{
    let start = DepacketizerView::initial();
    if steps.len() > 0 {
        let rest = steps.drop_last();
        assert forall|i: int| 0 <= i < rest.len() implies (#[trigger] rest[i]).is_countable() by {
            assert(rest[i] == steps[i]);
        }
        law_loss_is_what_was_given_up(rest);
        lemma_steps(start, rest);
        let before = after_steps(start, rest);
        let earlier = turns_since_report(start, rest);
        match steps.last() {
            Step::Poll => {
                law_loss_counts_turns(before);
                match steps.last().turn(before) {
                    Some(turn) => {
                        assert(earlier.push(turn).drop_last() =~= earlier);
                    },
                    None => {},
                }
            },
            _ => {},
        }
    }
}

impl SourceView {
    /// The frame as the receiver should come to hold it.
    pub open spec fn as_received(self) -> StagedView {
        StagedView {
            params: if self.params.len() == 0 {
                None
            } else {
                Some(self.params)
            },
            data: self.data,
            pts_micros: self.pts_micros,
            keyframe: self.keyframe,
        }
    }

    /// Whether the parameter sets can be written down: their number fits a byte,
    /// and each length four.
    pub open spec fn has_writable_params(self) -> bool {
        &&& self.params.len() <= u8::MAX
        &&& forall|i: int| 0 <= i < self.params.len() ==> (#[trigger] self.params[i]).len()
            <= u32::MAX
    }
}

/// The state after several datagrams.
pub open spec fn after_pushes(state: DepacketizerView, arrivals: Seq<(Header, Seq<u8>)>) ->
    DepacketizerView
    decreases arrivals.len(),
{
    if arrivals.len() == 0 {
        state
    } else {
        after_pushes(state, arrivals.drop_last()).pushed(arrivals.last().0, arrivals.last().1)
    }
}

/// A completed frame that is the one sent is held as it was sent.
proof fn lemma_completed_frame_is_staged(
    state: DepacketizerView,
    source: SourceView,
    seq: u64,
    frame: reassembly::FrameView,
)
    requires
        source.has_writable_params(),
        source.sent(seq).is(frame),
        state.next_seq is Some ==> state.next_seq->0 <= seq,
    ensures
        state.completed(frame) == state.with_staged(seq, source.as_received()),
{
    lemma_blocks_fit(source);
    if source.params.len() > 0 {
        packet::law_params_roundtrip(source.params, source.data);
    }
}

/// Whether the receiver, starting at `state`, holds nothing of the frame but what
/// was sent, and has otherwise waited.
spec fn on_track(
    state: DepacketizerView,
    after: DepacketizerView,
    source: SourceView,
    seq: u64,
) -> bool {
    &&& source.sent(seq).known_truly(after.reassembler)
    &&& seq + reassembly::STALE_DISTANCE >= after.reassembler.newest_seq
    &&& after.staged.contains_key(seq) ==> after.staged[seq] == source.as_received()
    &&& after.staged.dom().finite()
    &&& after.have_params == state.have_params
    &&& after.synced == state.synced
    &&& if state.next_seq is Some {
        after.next_seq == state.next_seq && state.next_seq->0 <= seq
    } else {
        after.next_seq == if after.staged.contains_key(seq) {
            Some(seq)
        } else {
            None
        }
    }
}

proof fn lemma_push_step(
    state: DepacketizerView,
    before: DepacketizerView,
    source: SourceView,
    seq: u64,
    datagram: (Header, Seq<u8>),
)
    requires
        source.has_writable_params(),
        on_track(state, before, source, seq),
        source.sent(seq).owns(datagram),
    ensures
        ({
            let after = before.pushed(datagram.0, datagram.1);
            let (reassembler, frame) = reassembly::arrived(
                before.reassembler,
                datagram.0,
                datagram.1,
            );
            &&& on_track(state, after, source, seq)
            &&& after.reassembler == reassembler
            &&& frame is Some || before.staged.contains_key(seq) ==> after.staged.contains_key(seq)
        }),
{
    lemma_blocks_fit(source);
    reassembly::law_completed_frames_are_exact(
        before.reassembler,
        source.sent(seq),
        datagram.0,
        datagram.1,
    );
    let (reassembler, frame) = reassembly::arrived(before.reassembler, datagram.0, datagram.1);
    let middle = DepacketizerView { reassembler, ..before };
    match frame {
        Some(frame) => {
            lemma_completed_frame_is_staged(middle, source, seq, frame);
        },
        None => {},
    }
}

proof fn lemma_pushes(
    state: DepacketizerView,
    source: SourceView,
    seq: u64,
    arrivals: Seq<(Header, Seq<u8>)>,
    n: int,
)
    requires
        source.has_writable_params(),
        on_track(state, state, source, seq),
        forall|k: int| 0 <= k < arrivals.len() ==> source.sent(seq).owns(#[trigger] arrivals[k]),
        0 <= n <= arrivals.len(),
    ensures
        on_track(state, after_pushes(state, arrivals.take(n)), source, seq),
        after_pushes(state, arrivals.take(n)).reassembler == reassembly::after_all(
            state.reassembler,
            arrivals.take(n),
        ),
        forall|k: int|
            0 <= k < n && (#[trigger] reassembly::outcome(
                state.reassembler,
                arrivals,
                k,
            )) is Some ==> after_pushes(state, arrivals.take(n)).staged.contains_key(seq),
    decreases n,
{
    assert(arrivals.take(0) =~= seq![]);
    if n > 0 {
        lemma_pushes(state, source, seq, arrivals, n - 1);
        assert(arrivals.take(n).drop_last() =~= arrivals.take(n - 1));
        assert(arrivals.take(n).last() == arrivals[n - 1]);
        assert(source.sent(seq).owns(arrivals[n - 1]));
        let before = after_pushes(state, arrivals.take(n - 1));
        let after = after_pushes(state, arrivals.take(n));
        lemma_push_step(state, before, source, seq, arrivals[n - 1]);
        assert(after == before.pushed(arrivals[n - 1].0, arrivals[n - 1].1));
        assert forall|k: int|
            0 <= k < n && (#[trigger] reassembly::outcome(
                state.reassembler,
                arrivals,
                k,
            )) is Some implies after.staged.contains_key(seq) by {
            if k < n - 1 {
                assert(before.staged.contains_key(seq));
            }
        }
    }
}

/// Datagrams of a frame that arrive are the frame's own.
proof fn lemma_arrivals_are_sound(
    source: SourceView,
    seq: u64,
    levels: nat,
    arrivals: Seq<Seq<u8>>,
)
    requires
        source.is_countable(),
        levels <= fec::MAX_PARITY,
        forall|k: int|
            0 <= k < arrivals.len() ==> source.datagrams(seq, levels).contains(
                #[trigger] arrivals[k],
            ),
    ensures
        ({
            let list = arrivals.map_values(|datagram: Seq<u8>| parsed(datagram));
            forall|k: int|
                0 <= k < list.len() ==> source.sent(seq).owns(#[trigger] list[k])
                    && reassembly::is_aligned(list[k])
        }),
{
    let list = arrivals.map_values(|datagram: Seq<u8>| parsed(datagram));
    law_datagrams_are_sound(source, seq, levels);
    assert forall|k: int| 0 <= k < list.len() implies source.sent(seq).owns(#[trigger] list[k])
        && reassembly::is_aligned(list[k]) by {
        let all = source.datagrams(seq, levels);
        assert(all.contains(arrivals[k]));
        let d = choose|d: int| 0 <= d < all.len() && all[d] == arrivals[k];
        assert(is_sound(source, seq, all[d]));
    }
}

/// A frame survives framing, the wire and reassembly: from any of its datagrams,
/// in any order and repeated or not, that between them can make every group
/// whole, the receiver comes to hold exactly the parameter sets, data, timestamp
/// and keyframe mark that were sent. When its turn comes, a stream that can be
/// decoded with it releases it as it was sent.
pub proof fn law_frame_round_trips(
    state: DepacketizerView,
    source: SourceView,
    seq: u64,
    levels: nat,
    arrivals: Seq<Seq<u8>>,
)
    requires
        state.valid(),
        source.has_writable_params(),
        source.is_countable(),
        levels <= fec::MAX_PARITY,
        state.next_seq is Some ==> state.next_seq->0 <= seq,
        source.sent(seq).awaited(state.reassembler),
        !state.staged.contains_key(seq),
        forall|k: int|
            0 <= k < arrivals.len() ==> source.datagrams(seq, levels).contains(
                #[trigger] arrivals[k],
            ),
        arrivals.len() > 0,
        reassembly::recoverable(
            reassembly::gathered(
                source.sent(seq),
                arrivals.map_values(|datagram: Seq<u8>| parsed(datagram)),
            ),
        ),
    ensures
        ({
            let after = after_pushes(
                state,
                arrivals.map_values(|datagram: Seq<u8>| parsed(datagram)),
            );
            &&& after.staged.contains_key(seq)
            &&& after.staged[seq] == source.as_received()
            &&& after.next_seq == if state.next_seq is Some {
                state.next_seq
            } else {
                Some(seq)
            }
            &&& after.next_seq == Some(seq) && (state.synced || source.keyframe) && (
            state.have_params || source.params.len() > 0) ==> after.polled().1 == (ReceivedView::Frame {
                seq,
                params: source.as_received().params,
                data: source.data,
                pts_micros: source.pts_micros,
            })
        }),
{
    let list = arrivals.map_values(|datagram: Seq<u8>| parsed(datagram));
    let n = list.len() as int;
    lemma_blocks_fit(source);
    lemma_arrivals_are_sound(source, seq, levels, arrivals);
    reassembly::law_frame_survives_losses(state.reassembler, source.sent(seq), list);
    lemma_pushes(state, source, seq, list, n);
    assert(list.take(n) =~= list);
    let after = after_pushes(state, list);
    assert(after.staged.contains_key(seq));
    assert(after.staged.dom().contains(seq));
    assert(after.staged.dom().len() > 0) by {
        if after.staged.dom().len() == 0 {
            assert(after.staged.dom() =~= Set::empty());
        }
    }
}

/// Without any loss there is nothing to rebuild: if the datagram of every block
/// arrives, the frame can be made whole with or without parity.
pub proof fn law_all_data_is_enough(source: SourceView, seq: u64, arrivals: Seq<Seq<u8>>)
    requires
        source.is_countable(),
        forall|i: int|
            0 <= i < source.blocks().len() ==> arrivals.contains(
                #[trigger] source.data_datagram(seq, i),
            ),
    ensures
        reassembly::recoverable(
            reassembly::gathered(
                source.sent(seq),
                arrivals.map_values(|datagram: Seq<u8>| parsed(datagram)),
            ),
        ),
{
    let list = arrivals.map_values(|datagram: Seq<u8>| parsed(datagram));
    let all = reassembly::gathered(source.sent(seq), list);
    assert forall|i: int| 0 <= i < all.fragments.len() implies (
    #[trigger] all.fragments[i]) is Some by {
        lemma_data_datagram_is_sound(source, seq, i);
        let k = choose|k: int|
            0 <= k < arrivals.len() && arrivals[k] == source.data_datagram(seq, i);
        assert(reassembly::is_data(list[k], i));
    }
    assert forall|first: int|
        0 <= first < all.fragments.len() && first % fec::GROUP as int
            == 0 implies #[trigger] reassembly::enough(all, first) by {
        let window = all.fragments.subrange(
            first,
            reassembly::group_end(all.fragments.len(), first),
        );
        assert forall|i: int| 0 <= i < window.len() implies (#[trigger] window[i]) is Some by {
            assert(window[i] == all.fragments[first + i]);
        }
        reassembly::lemma_no_holes(window);
    }
}

/// Where no datagram completes a frame, none comes to be held.
proof fn lemma_nothing_staged(
    state: DepacketizerView,
    arrivals: Seq<(Header, Seq<u8>)>,
    n: int,
)
    requires
        0 <= n <= arrivals.len(),
        forall|k: int|
            0 <= k < n ==> (#[trigger] reassembly::outcome(state.reassembler, arrivals, k)) is None,
    ensures
        after_pushes(state, arrivals.take(n)).staged == state.staged,
        after_pushes(state, arrivals.take(n)).reassembler == reassembly::after_all(
            state.reassembler,
            arrivals.take(n),
        ),
    decreases n,
{
    assert(arrivals.take(0) =~= seq![]);
    if n > 0 {
        lemma_nothing_staged(state, arrivals, n - 1);
        assert(arrivals.take(n).drop_last() =~= arrivals.take(n - 1));
        assert(arrivals.take(n).last() == arrivals[n - 1]);
        assert(reassembly::outcome(state.reassembler, arrivals, n - 1) is None);
    }
}

/// Of the datagrams that a frame is sent as, those that arrive, in any order and
/// repeated or not, give the frame if and only if in every group of ten no more
/// fragments are missing than parity datagrams arrived. The one that tips the
/// balance brings the frame, and none before it does.
pub proof fn law_loss_beyond_parity_is_final(
    state: DepacketizerView,
    source: SourceView,
    seq: u64,
    levels: nat,
    arrivals: Seq<Seq<u8>>,
)
    requires
        state.valid(),
        source.has_writable_params(),
        source.is_countable(),
        levels <= fec::MAX_PARITY,
        state.next_seq is Some ==> state.next_seq->0 <= seq,
        source.sent(seq).awaited(state.reassembler),
        !state.reassembler.partials.contains_key(seq),
        !state.staged.contains_key(seq),
        forall|k: int|
            0 <= k < arrivals.len() ==> source.datagrams(seq, levels).contains(
                #[trigger] arrivals[k],
            ),
        arrivals.len() > 0,
    ensures
        ({
            let list = arrivals.map_values(|datagram: Seq<u8>| parsed(datagram));
            let sent = source.sent(seq);
            &&& after_pushes(state, list).staged.contains_key(seq) <==> reassembly::recoverable(
                reassembly::gathered(sent, list),
            )
            &&& forall|n: int|
                0 <= n < list.len() && !reassembly::recoverable(
                    reassembly::gathered(sent, list.take(n)),
                ) ==> (#[trigger] reassembly::outcome(state.reassembler, list, n) is Some
                    <==> reassembly::recoverable(reassembly::gathered(sent, list.take(n + 1))))
        }),
{
    let list = arrivals.map_values(|datagram: Seq<u8>| parsed(datagram));
    let sent = source.sent(seq);
    let len = list.len() as int;
    lemma_blocks_fit(source);
    lemma_arrivals_are_sound(source, seq, levels, arrivals);
    assert(list.take(len) =~= list);
    assert forall|n: int|
        0 <= n < list.len() && !reassembly::recoverable(
            reassembly::gathered(sent, list.take(n)),
        ) implies (#[trigger] reassembly::outcome(state.reassembler, list, n) is Some
        <==> reassembly::recoverable(reassembly::gathered(sent, list.take(n + 1)))) by {
        reassembly::law_frame_comes_out_just_when_recoverable(state.reassembler, sent, list, n);
    }
    if reassembly::recoverable(reassembly::gathered(sent, list)) {
        law_frame_round_trips(state, source, seq, levels, arrivals);
    } else {
        assert forall|k: int| 0 <= k < len implies (#[trigger] reassembly::outcome(
            state.reassembler,
            list,
            k,
        )) is None by {
            if reassembly::recoverable(reassembly::gathered(sent, list.take(k + 1))) {
                reassembly::lemma_recoverable_lasts(sent, list, k + 1, len);
            }
            if reassembly::recoverable(reassembly::gathered(sent, list.take(k))) {
                reassembly::lemma_recoverable_lasts(sent, list, k, len);
            }
        }
        lemma_nothing_staged(state, list, len);
    }
}

/// Fragment `i` is among the datagrams ahead of the parity behind fragment `n - 1`.
proof fn lemma_fragment_is_sent_before(
    source: SourceView,
    seq: u64,
    n: int,
    levels: nat,
    i: int,
    k: int,
)
    requires
        source.is_countable(),
        0 <= i < n <= source.blocks().len(),
        source.datagrams_before(seq, n - 1, levels).len() < k <= source.datagrams_before(
            seq,
            n,
            levels,
        ).len(),
    ensures
        reassembly::has_fragment(
            source.datagrams_before(seq, n, levels).map_values(
                |datagram: Seq<u8>| parsed(datagram),
            ).take(k),
            i,
        ),
{
    let shorter = source.datagrams_before(seq, n - 1, levels);
    let all = source.datagrams_before(seq, n, levels);
    let list = all.map_values(|datagram: Seq<u8>| parsed(datagram));
    let wanted = source.data_datagram(seq, i);
    lemma_sent_before(source, seq, n - 1, levels);
    lemma_data_datagram_is_sound(source, seq, i);
    let d = if i < n - 1 {
        assert(shorter.contains(wanted));
        choose|d: int| 0 <= d < shorter.len() && shorter[d] == wanted
    } else {
        shorter.len() as int
    };
    assert(all[d] == wanted);
    assert(list.take(k)[d] == parsed(wanted));
}

/// What stands behind the datagrams of fewer blocks: a plain datagram, then parity
/// of the group that ends there.
proof fn lemma_behind_shorter(source: SourceView, seq: u64, n: int, levels: nat, k: int)
    requires
        source.is_countable(),
        levels <= fec::MAX_PARITY,
        0 < n <= source.blocks().len(),
        source.datagrams_before(seq, n - 1, levels).len() <= k < source.datagrams_before(
            seq,
            n,
            levels,
        ).len(),
        parsed(source.datagrams_before(seq, n, levels)[k]).0.flagged(flags::PARITY),
    ensures
        source.datagrams_before(seq, n - 1, levels).len() < k,
        parsed(source.datagrams_before(seq, n, levels)[k]).0.fragment_index
            == reassembly::group_start(n - 1),
        n == reassembly::group_end(source.blocks().len(), reassembly::group_start(n - 1)),
{
    let shorter = source.datagrams_before(seq, n - 1, levels);
    let all = source.datagrams_before(seq, n, levels);
    if k == shorter.len() {
        assert(all[k] == source.data_datagram(seq, n - 1));
        lemma_data_datagram_is_sound(source, seq, n - 1);
    } else {
        let level = k - shorter.len() - 1;
        let first = reassembly::group_start(n - 1);
        assert(all[k] == source.parity_after(seq, n, levels)[level]);
        assert(all[k] == source.parity_datagram(seq, first, level));
        lemma_parity_datagram_is_sound(source, seq, first, level);
    }
}

/// What a frame is sent as, in order, finds each group whole when its parity
/// comes.
proof fn lemma_parity_is_sent_last(source: SourceView, seq: u64, n: int, levels: nat)
    requires
        source.is_countable(),
        levels <= fec::MAX_PARITY,
        0 <= n <= source.blocks().len(),
    ensures
        reassembly::parity_comes_last(
            source.sent(seq),
            source.datagrams_before(seq, n, levels).map_values(
                |datagram: Seq<u8>| parsed(datagram),
            ),
        ),
    decreases n,
{
    if n > 0 {
        let shorter = source.datagrams_before(seq, n - 1, levels);
        let all = source.datagrams_before(seq, n, levels);
        let head = shorter.map_values(|datagram: Seq<u8>| parsed(datagram));
        let list = all.map_values(|datagram: Seq<u8>| parsed(datagram));
        lemma_parity_is_sent_last(source, seq, n - 1, levels);
        assert forall|k: int, i: int|
            0 <= k < list.len() && (#[trigger] list[k]).0.flagged(flags::PARITY) && 0 <= i
                < source.blocks().len() && reassembly::group_start(i)
                == list[k].0.fragment_index implies #[trigger] reassembly::has_fragment(
            list.take(k),
            i,
        ) by {
            if k < shorter.len() {
                assert(head.take(k) =~= list.take(k));
                assert(head[k] == list[k]);
                assert(reassembly::has_fragment(head.take(k), i));
            } else {
                lemma_behind_shorter(source, seq, n, levels, k);
                lemma_fragment_is_sent_before(source, seq, n, levels, i, k);
            }
        }
    }
}

/// A frame that arrives as it is sent needs no repair: however much parity goes
/// with it, nothing is counted as rebuilt.
pub proof fn law_clean_delivery_repairs_nothing(
    state: reassembly::ReassemblerView,
    source: SourceView,
    seq: u64,
    levels: nat,
)
    requires
        source.is_countable(),
        levels <= fec::MAX_PARITY,
        source.sent(seq).awaited(state),
        !state.partials.contains_key(seq),
    ensures
        reassembly::after_all(
            state,
            source.datagrams(seq, levels).map_values(|datagram: Seq<u8>| parsed(datagram)),
        ).repaired == state.repaired,
{
    let all = source.datagrams(seq, levels);
    lemma_blocks_fit(source);
    assert forall|k: int| 0 <= k < all.len() implies all.contains(#[trigger] all[k]) by {}
    lemma_arrivals_are_sound(source, seq, levels, all);
    lemma_parity_is_sent_last(source, seq, source.blocks().len() as int, levels);
    reassembly::law_clean_frames_need_no_repair(
        state,
        source.sent(seq),
        all.map_values(|datagram: Seq<u8>| parsed(datagram)),
    );
}

} // verus!
