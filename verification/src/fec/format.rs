//! What fragments and parity blocks are made of, byte by byte, and what repair may
//! touch.

use vstd::prelude::*;

use crate::endian;
use crate::fec;
use crate::gf;

verus! {

/// A protected fragment is its length in two bytes, the low one first, and then its
/// bytes. It is read back as many bytes as it claims, if it holds that many.
pub proof fn law_a_fragment_is_its_length_and_its_bytes(data: Seq<u8>, payload: Seq<u8>)
    requires
        data.len() <= u16::MAX,
    ensures
        ({
            let b = fec::fragment_bytes(data);
            &&& b.len() == data.len() + 2
            &&& b[0] + 256 * b[1] == data.len()
            &&& b.subrange(2, b.len() as int) == data
        }),
        fec::fragment_opening(payload) is Some <==> payload.len() >= 2 && payload[0] + 256 * payload[1]
            <= payload.len() - 2,
        fec::fragment_opening(payload) matches Some(found) ==> found == payload.subrange(
            2,
            2 + payload[0] + 256 * payload[1],
        ),
{
    broadcast use endian::lemma_le_bytes_len;

    let b = fec::fragment_bytes(data);
    endian::lemma_pow256_values();
    endian::law_value_of_bytes(data.len(), 2);
    assert(b.take(2) =~= endian::le_bytes(data.len(), 2));
    endian::law_numbers_start_with_their_low_byte(b.take(2));
    assert(b.subrange(2, b.len() as int) =~= data);
    if payload.len() >= 2 {
        endian::law_numbers_start_with_their_low_byte(payload.take(2));
        let len = payload[0] + 256 * payload[1];
        if len <= payload.len() - 2 {
            assert(payload.skip(2).take(len) =~= payload.subrange(2, 2 + len));
        }
    }
}

/// Byte `k` of a fragment as parity sees it.
pub open spec fn protected_byte(data: Seq<u8>, k: int) -> int {
    if k == 0 {
        data.len() as int % 256
    } else if k == 1 {
        data.len() as int / 256
    } else if k - 2 < data.len() {
        data[k - 2] as int
    } else {
        0
    }
}

/// The plain parity block of a group is the exclusive or of its fragments, each its
/// length in two bytes, then its bytes, then zeros. In the weighted one the
/// fragment at place `i` of its group counts times the `i`th power of two. Both
/// are two bytes longer than the longest fragment.
pub proof fn law_parity_is_a_weighted_sum(group: Seq<Seq<u8>>, last: Seq<u8>, k: int)
    requires
        last.len() <= 1253,
        group.len() < 255,
        0 <= k < 1255,
    ensures
        ({
            let more = group.push(last);
            let byte = protected_byte(last, k) as u8;
            &&& 0 <= protected_byte(last, k) <= 255
            &&& fec::parity_of(0, group).len() == 1255
            &&& fec::parity_of(1, group).len() == 1255
            &&& fec::parity_of(0, seq![])[k] == 0
            &&& fec::parity_of(1, seq![])[k] == 0
            &&& fec::parity_of(0, more)[k] == fec::parity_of(0, group)[k] ^ byte
            &&& fec::parity_of(1, more)[k] == fec::parity_of(1, group)[k] ^ gf::times(
                byte,
                gf::power(group.len()),
            )
        }),
{
    let more = group.push(last);
    assert(fec::complete(more).drop_last() =~= fec::complete(group));
    assert(fec::complete(more).last() == Some(last));
    assert(fec::complete(Seq::<Seq<u8>>::empty()) =~= seq![]);
    assert(fec::coded(last)[k] == protected_byte(last, k) as u8);
    gf::lemma_times_units(fec::coded(last)[k]);
}

/// Repair fills gaps and touches nothing else, whatever the parity blocks hold; and
/// where it fills any it fills all of the group.
pub proof fn law_repair_fills_only_gaps(
    fragments: Seq<Option<Seq<u8>>>,
    p: Option<Seq<u8>>,
    q: Option<Seq<u8>>,
    i: int,
)
    requires
        0 <= i < fragments.len(),
    ensures
        fec::solved(fragments, p, q) matches Some(after) ==> {
            &&& after.len() == fragments.len()
            &&& after[i] is Some
            &&& fragments[i] is Some ==> after[i] == fragments[i]
        },
{
    fec::lemma_gaps(fragments);
    if fec::solved(fragments, p, q) is Some && fragments[i] is None {
        assert(fec::gaps(fragments).contains(i as nat));
        let g = choose|g: int| 0 <= g < fec::gaps(fragments).len() && fec::gaps(fragments)[g] == i as nat;
        assert(g == 0 || g == 1);
    }
}

/// A fragment is rebuilt from the plain parity block and the others if and only if it
/// is the one that, put with them, has that parity: there is no other, and where
/// there is none nothing is rebuilt.
pub proof fn law_what_is_rebuilt_has_the_parity(
    parity: Seq<u8>,
    present: Seq<Seq<u8>>,
    data: Seq<u8>,
)
    ensures
        fec::recovered(parity, present) == Some(data) <==> data.len() <= 1253
            && parity == fec::parity_of(0, present.push(data)),
{
    let block = fec::residual(0, parity, fec::complete(present));
    let whole = fec::parity_of(0, present.push(data));
    if data.len() <= 1253 {
        assert forall|k: int| 0 <= k < 1255 && parity.len() == 1255 implies (parity[k] == whole[k]
            <==> #[trigger] block[k] == fec::coded(data)[k]) by {
            lemma_rest(parity, present, data, k);
        }
        if parity == whole {
            fec::lemma_coded_roundtrip(data, block);
        }
    }
    if fec::recovered(parity, present) == Some(data) {
        assert(data.len() <= 1253);
        assert forall|k: int| 0 <= k < 1255 implies #[trigger] block[k] == fec::coded(data)[k] by {
            if k >= 2 && k - 2 < data.len() {
                assert(block.subrange(2, 2 + data.len() as int)[k - 2] == block[k]);
            }
        }
        assert(parity =~= whole) by {
            assert forall|k: int| 0 <= k < 1255 implies parity[k] == whole[k] by {
                assert(block[k] == fec::coded(data)[k]);
            }
        }
    }
}

proof fn lemma_rest(parity: Seq<u8>, present: Seq<Seq<u8>>, data: Seq<u8>, k: int)
    requires
        parity.len() == 1255,
        0 <= k < 1255,
    ensures
        parity[k] == fec::parity_of(0, present.push(data))[k] <==> fec::residual(
            0,
            parity,
            fec::complete(present),
        )[k] == fec::coded(data)[k],
{
    let more = present.push(data);
    let sum = fec::sum_at(0, fec::complete(present), k);
    let own = fec::coded(data)[k];
    assert(fec::complete(more).drop_last() =~= fec::complete(present));
    assert(fec::complete(more).last() == Some(data));
    gf::lemma_times_units(own);
    let p = parity[k];
    assert(p == sum ^ own <==> p ^ sum == own) by (bit_vector);
}

/// A parity block of the wrong width is as good as none.
pub proof fn law_parity_of_another_width_is_ignored(
    fragments: Seq<Option<Seq<u8>>>,
    p: Seq<u8>,
    q: Seq<u8>,
)
    ensures
        p.len() != 1255 ==> fec::solved(fragments, Some(p), Some(q)) == fec::solved(
            fragments,
            None,
            Some(q),
        ),
        q.len() != 1255 ==> fec::solved(fragments, Some(p), Some(q)) == fec::solved(
            fragments,
            Some(p),
            None,
        ),
{
}

} // verus!
