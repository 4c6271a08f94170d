//! What stands where in a datagram, byte by byte.

use vstd::prelude::*;

use crate::chunks;
use crate::endian;
use crate::packet;
use crate::packet::{Header, Kind, SampleRate};

verus! {

/// The two bytes at `at` as a number, least significant first.
pub open spec fn two_at(b: Seq<u8>, at: int) -> int {
    b[at] + 0x100 * b[at + 1]
}

/// The four bytes at `at` as a number, least significant first.
pub open spec fn four_at(b: Seq<u8>, at: int) -> int {
    b[at] + 0x100 * b[at + 1] + 0x1_0000 * b[at + 2] + 0x100_0000 * b[at + 3]
}

/// The eight bytes at `at` as a number, least significant first.
pub open spec fn eight_at(b: Seq<u8>, at: int) -> int {
    four_at(b, at) + 0x1_0000_0000 * four_at(b, at + 4)
}

/// The number that stands for a kind of packet.
pub open spec fn kind_number(kind: Kind) -> int {
    match kind {
        Kind::Video => 0,
        Kind::Audio => 1,
        Kind::Control => 2,
    }
}

/// The number that stands for a sample rate, or for none.
pub open spec fn rate_number(rate: Option<SampleRate>) -> int {
    match rate {
        None => 0,
        Some(SampleRate::Hz44100) => 1,
        Some(SampleRate::Hz48000) => 2,
        Some(SampleRate::Hz88200) => 3,
        Some(SampleRate::Hz96000) => 4,
    }
}

/// Whether `header` is what the first 24 bytes of `b` say.
pub open spec fn says(b: Seq<u8>, header: Header) -> bool {
    &&& b[0] == 1
    &&& b[1] == kind_number(header.kind)
    &&& two_at(b, 2) == header.fragment_index
    &&& two_at(b, 4) == header.fragment_count
    &&& eight_at(b, 6) == header.seq
    &&& eight_at(b, 14) == header.pts_micros
    &&& b[22] == header.flags
}

proof fn lemma_two(b: Seq<u8>, at: int)
    requires
        0 <= at,
        at + 2 <= b.len(),
    ensures
        endian::le_value(b.subrange(at, at + 2)) == two_at(b, at),
{
    endian::law_numbers_start_with_their_low_byte(b.subrange(at, at + 2));
}

proof fn lemma_eight(b: Seq<u8>, at: int)
    requires
        0 <= at,
        at + 8 <= b.len(),
    ensures
        endian::le_value(b.subrange(at, at + 8)) == eight_at(b, at),
{
    endian::law_numbers_start_with_their_low_byte(b.subrange(at, at + 8));
}

/// A header is 24 bytes: the version, the kind, the place and number of its
/// fragments in two bytes each, its sequence number and its timestamp in eight
/// each, its flags, and the sample rate. All numbers are little-endian.
pub proof fn law_a_header_is_laid_out_in_order(header: Header)
    ensures
        header.bytes().len() == 24,
        says(header.bytes(), header),
        header.bytes()[23] == rate_number(header.rate),
{
    broadcast use endian::lemma_le_bytes_len;

    let b = header.bytes();
    endian::lemma_pow256_values();
    endian::law_value_of_bytes(header.fragment_index as nat, 2);
    endian::law_value_of_bytes(header.fragment_count as nat, 2);
    endian::law_value_of_bytes(header.seq as nat, 8);
    endian::law_value_of_bytes(header.pts_micros as nat, 8);
    assert(b.subrange(2, 4) =~= endian::le_bytes(header.fragment_index as nat, 2));
    assert(b.subrange(4, 6) =~= endian::le_bytes(header.fragment_count as nat, 2));
    assert(b.subrange(6, 14) =~= endian::le_bytes(header.seq as nat, 8));
    assert(b.subrange(14, 22) =~= endian::le_bytes(header.pts_micros as nat, 8));
    lemma_two(b, 2);
    lemma_two(b, 4);
    lemma_eight(b, 6);
    lemma_eight(b, 14);
}

/// A datagram is read if and only if it has a whole header of this version and a
/// known kind, whose fragment is one of its frame's. Then it is read as what its
/// bytes say. A byte that stands for no sample rate is read as none.
pub proof fn law_a_datagram_is_read_as_its_bytes_say(b: Seq<u8>)
    ensures
        Header::opening(b) is Some <==> {
            &&& b.len() >= 24
            &&& b[0] == 1
            &&& b[1] <= 2
            &&& two_at(b, 2) < two_at(b, 4)
        },
        Header::opening(b) matches Some(header) ==> {
            &&& says(b, header)
            &&& rate_number(header.rate) == if b[23] <= 4 {
                b[23] as int
            } else {
                0
            }
        },
{
    if b.len() >= 24 {
        endian::lemma_pow256_values();
        endian::law_bytes_of_value(b.subrange(2, 4));
        endian::law_bytes_of_value(b.subrange(4, 6));
        endian::law_bytes_of_value(b.subrange(6, 14));
        endian::law_bytes_of_value(b.subrange(14, 22));
        lemma_two(b, 2);
        lemma_two(b, 4);
        lemma_eight(b, 6);
        lemma_eight(b, 14);
    }
}

/// The rates that the link carries, and no others, each at its own frequency.
pub proof fn law_rates_are_their_frequencies(rate: SampleRate, hz: u32)
    ensures
        rate == SampleRate::Hz44100 ==> rate.frequency() == 44_100,
        rate == SampleRate::Hz48000 ==> rate.frequency() == 48_000,
        rate == SampleRate::Hz88200 ==> rate.frequency() == 88_200,
        rate == SampleRate::Hz96000 ==> rate.frequency() == 96_000,
        SampleRate::of_frequency(hz) == Some(rate) <==> rate.frequency() == hz,
{
}

/// A control datagram is of kind control, one of one fragment, and carries just
/// its flag and its stamp.
pub proof fn law_a_control_datagram_carries_its_flag_and_stamp(flag: u8, stamp_micros: u64)
    ensures
        ({
            let b = packet::control_header(flag, stamp_micros).bytes();
            &&& b.len() == 24
            &&& b[1] == 2
            &&& two_at(b, 2) == 0
            &&& two_at(b, 4) == 1
            &&& eight_at(b, 14) == stamp_micros
            &&& b[22] == flag
        }),
{
    law_a_header_is_laid_out_in_order(packet::control_header(flag, stamp_micros));
}

/// Feedback is the bitrate and then the parity blocks, four bytes each,
/// little-endian.
pub proof fn law_feedback_is_laid_out_in_order(bitrate_bps: u32, parity: u32)
    ensures
        ({
            let b = packet::feedback_body(bitrate_bps, parity);
            &&& b.len() == 8
            &&& four_at(b, 0) == bitrate_bps
            &&& four_at(b, 4) == parity
        }),
{
    broadcast use endian::lemma_le_bytes_len;

    let b = packet::feedback_body(bitrate_bps, parity);
    endian::lemma_pow256_values();
    endian::law_value_of_bytes(bitrate_bps as nat, 4);
    endian::law_value_of_bytes(parity as nat, 4);
    assert(b.subrange(0, 4) =~= endian::le_bytes(bitrate_bps as nat, 4));
    assert(b.subrange(4, 8) =~= endian::le_bytes(parity as nat, 4));
    endian::law_numbers_start_with_their_low_byte(b.subrange(0, 4));
    endian::law_numbers_start_with_their_low_byte(b.subrange(4, 8));
}

/// Parameter sets are written as their number in one byte and then one behind the
/// other, each with its length in four bytes, little-endian, in front of it.
pub proof fn law_parameter_sets_are_laid_out_in_order(sets: Seq<Seq<u8>>, last: Seq<u8>)
    requires
        sets.len() < 255,
        last.len() <= u32::MAX,
    ensures
        ({
            let before = packet::params_bytes(sets);
            let b = packet::params_bytes(sets.push(last));
            let at = before.len() as int;
            &&& packet::params_bytes(seq![]) == seq![0u8]
            &&& before.len() >= 1
            &&& b[0] == sets.len() + 1
            &&& b.len() == at + 4 + last.len()
            &&& b.subrange(1, at) == before.subrange(1, at)
            &&& four_at(b, at) == last.len()
            &&& b.subrange(at + 4, b.len() as int) == last
        }),
{
    broadcast use endian::lemma_le_bytes_len;

    packet::lemma_sets_bytes_push(sets, last);
    let before = packet::params_bytes(sets);
    let b = packet::params_bytes(sets.push(last));
    let at = before.len() as int;
    endian::lemma_pow256_values();
    endian::law_value_of_bytes(last.len(), 4);
    assert(packet::params_bytes(seq![]) =~= seq![0u8]);
    assert(b.subrange(at, at + 4) =~= endian::le_bytes(last.len(), 4));
    endian::law_numbers_start_with_their_low_byte(b.subrange(at, at + 4));
    assert(b.subrange(1, at) =~= before.subrange(1, at));
    assert(b.subrange(at + 4, b.len() as int) =~= last);
}

/// A payload goes out in full datagrams of 1280 bytes, but for the last, and in no
/// more of them than it needs: at least one, and none empty behind its header
/// unless the payload is. Fragment `i` carries the payload from `1256 * i` on.
pub proof fn law_fragments_are_full_but_the_last(header: Header, payload: Seq<u8>, i: int)
    requires
        0 <= i < packet::fragments(header, payload).len() <= u16::MAX,
    ensures
        ({
            let all = packet::fragments(header, payload);
            let body = all[i].subrange(24, all[i].len() as int);
            &&& all.len() >= 1
            &&& all[i].len() >= 24
            &&& i < all.len() - 1 ==> all[i].len() == 1280
            &&& payload.len() > 0 ==> all[i].len() > 24
            &&& 1256 * i + body.len() <= payload.len()
            &&& body == payload.subrange(1256 * i, 1256 * i + body.len())
            &&& i == all.len() - 1 ==> 1256 * i + body.len() == payload.len()
            &&& two_at(all[i], 2) == i
            &&& two_at(all[i], 4) == all.len()
        }),
{
    let all = packet::fragments(header, payload);
    let own = Header { fragment_index: i as u16, fragment_count: all.len() as u16, ..header };
    law_a_header_is_laid_out_in_order(own);
    chunks::lemma_block_bounds(payload.len(), 1256, i);
    let part = chunks::block(payload, 1256, i);
    assert(all[i] == own.bytes() + part);
    assert(all[i].subrange(24, all[i].len() as int) =~= part);
    if i > 0 {
        chunks::lemma_block_bounds(payload.len(), 1256, i - 1);
    }
}

} // verus!
