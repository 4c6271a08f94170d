//! In what order a frame's datagrams go out, and what the receiver counts.

use vstd::prelude::*;

use crate::fec;
use crate::packet;
use crate::packet::{flags, Header};
use crate::reassembly;
use crate::video;
use crate::video::SourceView;

verus! {

/// How many groups of more than one block end within the first `n` of `len`.
pub open spec fn groups_ended(len: int, n: int) -> int {
    n / 10 + if n == len && n % 10 > 1 {
        1int
    } else {
        0
    }
}

/// Whether block `i` goes out at its place.
spec fn data_stands(source: SourceView, seq: u64, levels: nat, all: Seq<Seq<u8>>, i: int) -> bool {
    let at = i + (i / 10) * levels;
    0 <= at < all.len() && all[at] == source.data_datagram(seq, i)
}

/// Whether parity block `level` of a group goes out at its place.
spec fn parity_stands(
    source: SourceView,
    seq: u64,
    levels: nat,
    all: Seq<Seq<u8>>,
    group: int,
    level: int,
) -> bool {
    let at = reassembly::group_end(source.blocks().len(), 10 * group) + group * levels + level;
    0 <= at < all.len() && all[at] == source.parity_datagram(seq, 10 * group, level)
}

proof fn lemma_positions(source: SourceView, seq: u64, n: int, levels: nat)
    requires
        0 <= n <= source.blocks().len(),
    ensures
        ({
            let len = source.blocks().len() as int;
            let all = source.datagrams_before(seq, n, levels);
            &&& all.len() == n + groups_ended(len, n) * levels
            &&& forall|i: int|
                0 <= i < n ==> #[trigger] data_stands(source, seq, levels, all, i)
            &&& forall|group: int, level: int|
                0 <= group && 0 <= level < levels && 10 * group + 1 < reassembly::group_end(
                    source.blocks().len(),
                    10 * group,
                ) <= n ==> #[trigger] parity_stands(source, seq, levels, all, group, level)
        }),
    decreases n,
{
    let len = source.blocks().len() as int;
    if n == 0 {
        assert(0 * levels == 0) by (nonlinear_arith);
    } else {
        lemma_positions(source, seq, n - 1, levels);
        let shorter = source.datagrams_before(seq, n - 1, levels);
        let all = source.datagrams_before(seq, n, levels);
        let parity = source.parity_after(seq, n, levels);
        let first = reassembly::group_start(n - 1);
        let g = (n - 1) / 10;
        assert(first == 10 * g);
        assert(groups_ended(len, n - 1) == g);
        let ended = n == reassembly::group_end(source.blocks().len(), first) && n - first > 1;
        assert(groups_ended(len, n) == g + if ended {
            1int
        } else {
            0
        });
        assert((g + 1) * levels == g * levels + levels) by (nonlinear_arith);
        assert(0 <= g * levels) by (nonlinear_arith)
            requires
                g >= 0,
        ;
        assert(shorter.len() == n - 1 + g * levels);
        assert forall|i: int| 0 <= i < n implies #[trigger] data_stands(
            source,
            seq,
            levels,
            all,
            i,
        ) by {
            if i < n - 1 {
                assert(data_stands(source, seq, levels, shorter, i));
            } else {
                assert(all[shorter.len() as int] == source.data_datagram(seq, n - 1));
            }
        }
        assert forall|group: int, level: int|
            0 <= group && 0 <= level < levels && 10 * group + 1 < reassembly::group_end(
                source.blocks().len(),
                10 * group,
            ) <= n implies #[trigger] parity_stands(source, seq, levels, all, group, level) by {
            let end = reassembly::group_end(source.blocks().len(), 10 * group);
            if end < n {
                assert(parity_stands(source, seq, levels, shorter, group, level));
            } else {
                assert(group == g);
                assert(all[shorter.len() + 1 + level] == parity[level]);
            }
        }
    }
}

/// A frame's datagrams go out in order: its blocks one after the other and, right
/// behind each group of ten, or what is left for the last group, the group's parity
/// blocks, unless the group is a single block. Nothing else goes out.
pub proof fn law_datagrams_go_out_in_order(
    source: SourceView,
    seq: u64,
    levels: nat,
    i: int,
    group: int,
    level: int,
)
    requires
        0 <= i < source.blocks().len(),
        0 <= group,
        10 * group < source.blocks().len(),
        0 <= level < levels,
    ensures
        ({
            let all = source.datagrams(seq, levels);
            let len = source.blocks().len() as int;
            let end = if 10 * group + 10 <= len {
                10 * group + 10
            } else {
                len
            };
            &&& all.len() == len + (len / 10 + if len % 10 > 1 {
                1int
            } else {
                0
            }) * levels
            &&& 0 <= i + (i / 10) * levels < all.len()
            &&& all[i + (i / 10) * levels] == source.data_datagram(seq, i)
            &&& end - 10 * group > 1 ==> {
                &&& 0 <= end + group * levels + level < all.len()
                &&& all[end + group * levels + level] == source.parity_datagram(
                    seq,
                    10 * group,
                    level,
                )
            }
        }),
{
    lemma_positions(source, seq, source.blocks().len() as int, levels);
    let all = source.datagrams(seq, levels);
    assert(data_stands(source, seq, levels, all, i));
    if reassembly::group_end(source.blocks().len(), 10 * group) - 10 * group > 1 {
        assert(parity_stands(source, seq, levels, all, group, level));
    }
}

/// A datagram of a frame carries the frame's number and timestamp, its own place
/// and the number of blocks; its flags say whether the frame is a keyframe, whether
/// its parameter sets are with it, and whether the datagram is parity. Behind the
/// header stands a block with its length, or the level of the parity and then the
/// parity block.
pub proof fn law_a_datagram_says_what_it_carries(
    source: SourceView,
    seq: u64,
    i: int,
    first: int,
    level: int,
)
    requires
        source.is_countable(),
        0 <= i < source.blocks().len(),
        0 <= first < source.blocks().len(),
        0 <= level < 2,
    ensures
        ({
            let data = source.data_datagram(seq, i);
            let parity = source.parity_datagram(seq, first, level);
            let block = source.blocks()[i];
            let wanted = (if source.keyframe {
                1int
            } else {
                0
            }) + (if source.params.len() > 0 {
                2int
            } else {
                0
            });
            let header = Header {
                kind: packet::Kind::Video,
                fragment_index: i as u16,
                fragment_count: source.blocks().len() as u16,
                seq,
                pts_micros: source.pts_micros,
                flags: wanted as u8,
                rate: None,
            };
            let parity_header = Header {
                fragment_index: first as u16,
                flags: (wanted + 128) as u8,
                ..header
            };
            &&& data.len() == 26 + block.len()
            &&& packet::wire::says(data, header)
            &&& data[24] + 256 * data[25] == block.len()
            &&& data.subrange(26, data.len() as int) == block
            &&& parity.len() == 25 + 1255
            &&& packet::wire::says(parity, parity_header)
            &&& parity[24] == level
            &&& parity.subrange(25, parity.len() as int) == fec::parity_of(
                level as nat,
                reassembly::group_at(source.blocks(), first),
            )
        }),
{
    let more = source.blocks()[i];
    video::lemma_blocks_fit(source);
    assert(more.len() <= fec::BLOCK);
    let data = source.data_datagram(seq, i);
    let parity = source.parity_datagram(seq, first, level);
    packet::wire::law_a_header_is_laid_out_in_order(source.header(seq, i, 0));
    packet::wire::law_a_header_is_laid_out_in_order(source.header(seq, first, flags::PARITY));
    fec::format::law_a_fragment_is_its_length_and_its_bytes(more, more);
    lemma_flag_sums(source.keyframe, source.params.len() > 0);
    assert(data.subrange(24, data.len() as int) =~= fec::fragment_bytes(more));
    assert(data.subrange(26, data.len() as int) =~= more) by {
        let b = fec::fragment_bytes(more);
        assert(b.subrange(2, b.len() as int) == more);
        assert(data.subrange(26, data.len() as int) =~= b.subrange(2, b.len() as int));
    }
    assert(parity.subrange(25, parity.len() as int) =~= fec::parity_of(
        level as nat,
        reassembly::group_at(source.blocks(), first),
    ));
}

proof fn lemma_flag_sums(keyframe: bool, params: bool)
    by (bit_vector)
    ensures
        ({
            let k: u8 = if keyframe {
                0x01u8
            } else {
                0u8
            };
            let p: u8 = if params {
                0x02u8
            } else {
                0u8
            };
            &&& ((k | p) | 0u8) == k + p
            &&& ((k | p) | 0x80u8) == k + p + 128
        }),
{
}

} // verus!
