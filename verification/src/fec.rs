//! Forward error correction for video fragments.
//!
//! A video frame is split across many datagrams and losing any one of them
//! loses the whole frame, which then costs a resync and a fresh keyframe. A
//! keyframe is the worst case: it is the largest frame and the most expensive
//! to lose, and at a hundred-plus fragments even a 1% loss rate makes losing at
//! least one of them the likely outcome rather than the unlucky one.
//!
//! Each group of fragments therefore carries one parity datagram, the XOR of
//! its members, which rebuilds any single missing fragment in that group. A
//! second, weighted parity datagram rebuilds any two.

use vstd::prelude::*;

use crate::endian;
use crate::endian::{append_bytes, push_le, read_le};
use crate::gf;
use crate::gf::{build_tables, coefficient, gf_div, gf_mul, Tables};
use crate::packet::MAX_PAYLOAD;

pub mod format;

verus! {

/// Fragments protected by one group's parity. Ten costs 10% overhead per parity
/// block and, at realistic loss rates, is the difference between most large
/// frames arriving and most of them failing.
pub const GROUP: usize = 10;

/// Parity blocks a group may carry.
///
/// The first is a plain XOR, which rebuilds any single missing fragment. The
/// second is a weighted sum over GF(256), which is what makes *two* losses in
/// the same group recoverable: two plain XORs of the same fragments would carry
/// no more information than one. This is the P+Q scheme RAID-6 uses.
pub const MAX_PARITY: usize = 2;

/// Two bytes of every protected fragment carry its own length, so a rebuilt
/// fragment knows how long it is.
pub const LENGTH_PREFIX: usize = 2;

/// One byte on each parity datagram says which parity block it is, so the
/// receiver can tell P from Q however they arrive.
pub const LEVEL_PREFIX: usize = 1;

/// Data a protected fragment may carry. Sized so a parity datagram, which is a
/// full-width block plus its length and level bytes, still fits one datagram.
pub const BLOCK: usize = MAX_PAYLOAD - LENGTH_PREFIX - LEVEL_PREFIX;

/// A parity block is always full width: length prefix plus a whole block.
pub const PARITY_LEN: usize = LENGTH_PREFIX + BLOCK;

proof fn lemma_xor(a: u8, b: u8, c: u8)
    by (bit_vector)
    ensures
        (a ^ b) ^ c == a ^ (b ^ c),
        a ^ b == b ^ a,
        a ^ a == 0,
        a ^ 0 == a,
        a ^ b == 0 <==> a == b,
        (a ^ b) ^ b == a,
        (a ^ b) ^ c == (a ^ c) ^ b,
{
}

/// `data` as a protected fragment: its length, then the bytes.
pub open spec fn fragment_bytes(data: Seq<u8>) -> Seq<u8> {
    endian::le_bytes((data.len() as u16) as nat, 2) + data
}

/// The data of a protected fragment, if the payload holds as much as it claims.
pub open spec fn fragment_opening(payload: Seq<u8>) -> Option<Seq<u8>> {
    if payload.len() < LENGTH_PREFIX {
        None
    } else {
        let len = endian::le_value(payload.take(LENGTH_PREFIX as int)) as int;
        let rest = payload.skip(LENGTH_PREFIX as int);
        if len <= rest.len() {
            Some(rest.take(len))
        } else {
            None
        }
    }
}

/// Writes `data` as a protected fragment: its length, then the bytes.
pub fn encode_fragment(data: &[u8], out: &mut Vec<u8>)
    ensures
        final(out)@ == fragment_bytes(data@),
{
    out.clear();
    push_le(out, data.len() as u16 as u64, 2);
    append_bytes(out, data);
    assert(out@ =~= fragment_bytes(data@));
}

/// Reads a protected fragment back, rejecting anything malformed.
pub fn decode_fragment(payload: &[u8]) -> (data: Option<&[u8]>)
    ensures
        data is Some <==> fragment_opening(payload@) is Some,
        data matches Some(d) ==> fragment_opening(payload@) == Some(d@),
{
    if payload.len() < LENGTH_PREFIX {
        return None;
    }
    proof {
        endian::lemma_pow256_values();
        assert(payload@.subrange(0, 2) =~= payload@.take(LENGTH_PREFIX as int));
    }
    let len: usize = read_le(payload, 0, 2) as usize;
    if len > payload.len() - LENGTH_PREFIX {
        return None;
    }
    let data = vstd::slice::slice_subrange(payload, LENGTH_PREFIX, LENGTH_PREFIX + len);
    assert(data@ =~= payload@.skip(LENGTH_PREFIX as int).take(len as int));
    Some(data)
}

/// A fragment survives its length prefix, and one of at most a block fits a
/// datagram with it.
pub proof fn law_fragments_roundtrip(data: Seq<u8>)
    requires
        data.len() <= u16::MAX,
    ensures
        fragment_opening(fragment_bytes(data)) == Some(data),
        data.len() <= BLOCK ==> fragment_bytes(data).len() <= MAX_PAYLOAD,
{
    broadcast use endian::lemma_le_bytes_len;

    let payload = fragment_bytes(data);
    endian::lemma_pow256_values();
    endian::law_value_of_bytes(data.len(), 2);
    assert(payload.take(LENGTH_PREFIX as int) =~= endian::le_bytes(data.len(), 2));
    assert(payload.skip(LENGTH_PREFIX as int) =~= data);
    assert(data.take(data.len() as int) =~= data);
}

/// A fragment as parity sees it: its length and its bytes, padded with zeros to
/// the width of a parity block. A fragment that is too long counts as nothing.
pub open spec fn coded(data: Seq<u8>) -> Seq<u8> {
    Seq::new(
        PARITY_LEN as nat,
        |k: int|
            if data.len() > BLOCK {
                0
            } else if k == 0 {
                (data.len() % 256) as u8
            } else if k == 1 {
                (data.len() / 256) as u8
            } else if k - LENGTH_PREFIX < data.len() {
                data[k - LENGTH_PREFIX]
            } else {
                0
            },
    )
}

/// The weight of the fragment at `index` in parity block `level`.
pub open spec fn weight(level: nat, index: nat) -> u8 {
    if level == 0 {
        1
    } else {
        gf::power(index % 255)
    }
}

/// What the fragment `data` at `index` adds to byte `k` of parity block `level`.
pub open spec fn term(level: nat, index: nat, data: Seq<u8>, k: int) -> u8 {
    gf::times(coded(data)[k], weight(level, index))
}

/// What one fragment, if it is there, adds to byte `k` of parity block `level`.
pub open spec fn share(level: nat, index: nat, fragment: Option<Seq<u8>>, k: int) -> u8 {
    match fragment {
        Some(data) => term(level, index, data, k),
        None => 0,
    }
}

/// Byte `k` of the sum of a group's fragments, weighted for parity block
/// `level`. Gaps add nothing.
pub open spec fn sum_at(level: nat, fragments: Seq<Option<Seq<u8>>>, k: int) -> u8
    decreases fragments.len(),
{
    if fragments.len() == 0 {
        0
    } else {
        sum_at(level, fragments.drop_last(), k) ^ share(
            level,
            (fragments.len() - 1) as nat,
            fragments.last(),
            k,
        )
    }
}

/// Parity block `level` of a complete group.
pub open spec fn parity_of(level: nat, group: Seq<Seq<u8>>) -> Seq<u8> {
    Seq::new(PARITY_LEN as nat, |k: int| sum_at(level, complete(group), k))
}

/// A group with no gaps.
pub open spec fn complete(group: Seq<Seq<u8>>) -> Seq<Option<Seq<u8>>> {
    group.map_values(|data: Seq<u8>| Some(data))
}

/// What is left of a parity block once the fragments that are there are taken
/// out of it.
pub open spec fn residual(level: nat, parity: Seq<u8>, fragments: Seq<Option<Seq<u8>>>) -> Seq<u8> {
    Seq::new(PARITY_LEN as nat, |k: int| parity[k] ^ sum_at(level, fragments, k))
}

/// Folds one fragment into a parity block, weighted for parity `level`, with
/// the field's tables at hand.
pub fn accumulate_with(
    tables: &Tables,
    parity: &mut [u8; PARITY_LEN],
    data: &[u8],
    index: usize,
    level: usize,
)
    requires
        tables.valid(),
    ensures
        forall|k: int|
            0 <= k < PARITY_LEN ==> #[trigger] final(parity)@[k] == old(parity)@[k] ^ term(
                level as nat,
                index as nat,
                data@,
                k,
            ),
{
    let ghost all = coded(data@);
    let ghost before = parity@;
    let w: u8 = if level == 0 {
        1
    } else {
        coefficient(tables, index)
    };
    assert(w == weight(level as nat, index as nat));
    proof {
        gf::lemma_times_units(w);
    }
    if data.len() > BLOCK {
        proof {
            assert forall|k: int| 0 <= k < PARITY_LEN implies #[trigger] parity@[k] == before[k]
                ^ term(level as nat, index as nat, data@, k) by {
                lemma_xor(before[k], 0, 0);
            }
        }
        return;
    }
    parity[0] = parity[0] ^ gf_mul(tables, (data.len() % 256) as u8, w);
    parity[1] = parity[1] ^ gf_mul(tables, (data.len() / 256) as u8, w);
    let mut i: usize = 0;
    while i < data.len()
        invariant
            i <= data@.len() <= BLOCK,
            tables.valid(),
            all == coded(data@),
            before.len() == PARITY_LEN,
            forall|k: int|
                0 <= k < LENGTH_PREFIX + i ==> #[trigger] parity@[k] == before[k] ^ gf::times(
                    all[k],
                    w,
                ),
            forall|k: int| LENGTH_PREFIX + i <= k < PARITY_LEN ==> #[trigger] parity@[k] == before[k],
        decreases data@.len() - i,
    {
        parity[LENGTH_PREFIX + i] = parity[LENGTH_PREFIX + i] ^ gf_mul(tables, data[i], w);
        i = i + 1;
    }
    proof {
        assert forall|k: int| 0 <= k < PARITY_LEN implies #[trigger] parity@[k] == before[k] ^ term(
            level as nat,
            index as nat,
            data@,
            k,
        ) by {
            lemma_xor(before[k], 0, 0);
        }
    }
}

/// Folds one fragment into a parity block, weighted for parity `level`.
///
/// Level 0 is a plain XOR (P). Level 1 weights each fragment by a distinct
/// GF(256) coefficient (Q). Fragments are combined as though padded to the full
/// block width, which lets a short final fragment sit in a group with
/// full-width ones.
pub fn accumulate_at(parity: &mut [u8; PARITY_LEN], data: &[u8], index: usize, level: usize)
    ensures
        forall|k: int|
            0 <= k < PARITY_LEN ==> #[trigger] final(parity)@[k] == old(parity)@[k] ^ term(
                level as nat,
                index as nat,
                data@,
                k,
            ),
{
    let tables = build_tables();
    accumulate_with(&tables, parity, data, index, level);
}

/// Plain XOR parity, for a group's first parity block.
pub fn accumulate(parity: &mut [u8; PARITY_LEN], data: &[u8])
    ensures
        forall|k: int|
            0 <= k < PARITY_LEN ==> #[trigger] final(parity)@[k] == old(parity)@[k] ^ coded(
                data@,
            )[k],
{
    let ghost before = parity@;
    accumulate_at(parity, data, 0, 0);
    proof {
        assert forall|k: int| 0 <= k < PARITY_LEN implies #[trigger] parity@[k] == before[k]
            ^ coded(data@)[k] by {
            gf::lemma_times_units(coded(data@)[k]);
        }
    }
}

/// What is held of a list of fragments.
pub open spec fn held(fragments: Seq<Option<Vec<u8>>>) -> Seq<Option<Seq<u8>>> {
    fragments.map_values(
        |fragment: Option<Vec<u8>>|
            match fragment {
                Some(data) => Some(data@),
                None => None,
            },
    )
}

/// The positions of a group's gaps, in order.
pub open spec fn gaps(fragments: Seq<Option<Seq<u8>>>) -> Seq<nat>
    decreases fragments.len(),
{
    if fragments.len() == 0 {
        seq![]
    } else if fragments.last() is None {
        gaps(fragments.drop_last()).push((fragments.len() - 1) as nat)
    } else {
        gaps(fragments.drop_last())
    }
}

/// The fragment that a coded block stands for, if its length is plausible.
pub open spec fn fragment_in(block: Seq<u8>) -> Option<Seq<u8>> {
    let len = block[0] + 256 * block[1];
    if LENGTH_PREFIX + len <= PARITY_LEN {
        Some(block.subrange(LENGTH_PREFIX as int, LENGTH_PREFIX + len))
    } else {
        None
    }
}

/// A parity block of the wrong width is as good as none.
pub open spec fn usable(parity: Option<Seq<u8>>) -> Option<Seq<u8>> {
    match parity {
        Some(block) => if block.len() == PARITY_LEN {
            parity
        } else {
            None
        },
        None => None,
    }
}

/// A block with every byte divided by `divisor`.
pub open spec fn unweighted(block: Seq<u8>, divisor: u8) -> Seq<u8> {
    Seq::new(PARITY_LEN as nat, |k: int| gf::over(block[k], divisor))
}

/// The first of the two fragments whose plain sum is `a`, and whose sum under
/// the weights `gi` and `gj` is `b`.
pub open spec fn first_of_pair(a: Seq<u8>, b: Seq<u8>, gi: u8, gj: u8) -> Seq<u8> {
    Seq::new(PARITY_LEN as nat, |k: int| gf::over(b[k] ^ gf::times(gj, a[k]), gi ^ gj))
}

/// The sum of two blocks.
pub open spec fn sum_of(a: Seq<u8>, b: Seq<u8>) -> Seq<u8> {
    Seq::new(PARITY_LEN as nat, |k: int| a[k] ^ b[k])
}

/// The group with its one gap filled from whichever parity block there is.
pub open spec fn solved_one(
    fragments: Seq<Option<Seq<u8>>>,
    p: Option<Seq<u8>>,
    q: Option<Seq<u8>>,
) -> Option<Seq<Option<Seq<u8>>>> {
    let gap = gaps(fragments)[0];
    let block = if p is Some {
        residual(0, p->0, fragments)
    } else {
        unweighted(residual(1, q->0, fragments), weight(1, gap))
    };
    if p is None && q is None {
        None
    } else {
        match fragment_in(block) {
            Some(data) => Some(fragments.update(gap as int, Some(data))),
            None => None,
        }
    }
}

/// The group with its two gaps filled from both parity blocks.
pub open spec fn solved_two(
    fragments: Seq<Option<Seq<u8>>>,
    p: Option<Seq<u8>>,
    q: Option<Seq<u8>>,
) -> Option<Seq<Option<Seq<u8>>>> {
    let (i, j) = (gaps(fragments)[0], gaps(fragments)[1]);
    let a = residual(0, p->0, fragments);
    let b = residual(1, q->0, fragments);
    let x = first_of_pair(a, b, weight(1, i), weight(1, j));
    let y = sum_of(a, x);
    if p is None || q is None || weight(1, i) == weight(1, j) {
        None
    } else {
        match (fragment_in(x), fragment_in(y)) {
            (Some(first), Some(second)) => Some(
                fragments.update(i as int, Some(first)).update(j as int, Some(second)),
            ),
            _ => None,
        }
    }
}

/// The group with its gaps filled from whatever parity there is, or nothing
/// where that cannot be done.
///
/// One gap takes either parity block, the plain one where both are there. Two
/// take both. More than two are beyond what two parity blocks can describe.
pub open spec fn solved(
    fragments: Seq<Option<Seq<u8>>>,
    p: Option<Seq<u8>>,
    q: Option<Seq<u8>>,
) -> Option<Seq<Option<Seq<u8>>>> {
    if gaps(fragments).len() == 1 {
        solved_one(fragments, usable(p), usable(q))
    } else if gaps(fragments).len() == 2 {
        solved_two(fragments, usable(p), usable(q))
    } else {
        None
    }
}

/// Gaps are positions of the group at which nothing is held, in rising order,
/// and there are no others.
pub proof fn lemma_gaps(fragments: Seq<Option<Seq<u8>>>)
    ensures
        forall|g: int|
            0 <= g < gaps(fragments).len() ==> (#[trigger] gaps(fragments)[g]) < fragments.len()
                && fragments[gaps(fragments)[g] as int] is None,
        forall|g: int, h: int|
            0 <= g < h < gaps(fragments).len() ==> #[trigger] gaps(fragments)[g]
                < #[trigger] gaps(fragments)[h],
        forall|i: int|
            0 <= i < fragments.len() && fragments[i] is None ==> gaps(fragments).contains(
                #[trigger] (i as nat),
            ),
        gaps(fragments).len() <= fragments.len(),
    decreases fragments.len(),
{
    if fragments.len() > 0 {
        let rest = fragments.drop_last();
        lemma_gaps(rest);
        assert forall|i: int|
            0 <= i < fragments.len() && fragments[i] is None implies gaps(fragments).contains(
            #[trigger] (i as nat),
        ) by {
            if i < rest.len() {
                assert(rest[i] is None);
                assert(gaps(rest).contains(i as nat));
                let g = choose|g: int| 0 <= g < gaps(rest).len() && gaps(rest)[g] == i as nat;
                assert(gaps(fragments)[g] == i as nat);
            } else {
                assert(gaps(fragments).last() == i as nat);
            }
        }
    }
}

/// Takes out of a parity block the fragments that are there.
fn take_out(
    tables: &Tables,
    block: &mut [u8; PARITY_LEN],
    fragments: &[Option<Vec<u8>>],
    level: usize,
)
    requires
        tables.valid(),
    ensures
        final(block)@ == residual(level as nat, old(block)@, held(fragments@)),
{
    let ghost all = held(fragments@);
    let ghost before = block@;
    let mut i: usize = 0;
    proof {
        assert forall|k: int| 0 <= k < PARITY_LEN implies #[trigger] block@[k] == before[k]
            ^ sum_at(level as nat, all.take(0), k) by {
            lemma_xor(before[k], 0, 0);
        }
    }
    while i < fragments.len()
        invariant
            i <= fragments@.len(),
            tables.valid(),
            all == held(fragments@),
            before.len() == PARITY_LEN,
            forall|k: int|
                0 <= k < PARITY_LEN ==> #[trigger] block@[k] == before[k] ^ sum_at(
                    level as nat,
                    all.take(i as int),
                    k,
                ),
        decreases fragments@.len() - i,
    {
        let ghost current = block@;
        proof {
            assert(all.take(i + 1).drop_last() =~= all.take(i as int));
            assert(all.take(i + 1).last() == all[i as int]);
        }
        match &fragments[i] {
            Some(data) => {
                accumulate_with(tables, block, data.as_slice(), i, level);
            },
            None => {},
        }
        proof {
            assert forall|k: int| 0 <= k < PARITY_LEN implies #[trigger] block@[k] == before[k]
                ^ sum_at(level as nat, all.take(i + 1), k) by {
                let here = share(level as nat, i as nat, all[i as int], k);
                lemma_xor(before[k], sum_at(level as nat, all.take(i as int), k), here);
                lemma_xor(current[k], 0, 0);
                assert(block@[k] == current[k] ^ here);
            }
        }
        i = i + 1;
    }
    assert(all.take(i as int) =~= all);
    assert(block@ =~= residual(level as nat, before, all));
}

/// Reads a coded block back into a fragment, rejecting an implausible length.
fn decode_coded(block: &[u8; PARITY_LEN]) -> (data: Option<Vec<u8>>)
    ensures
        data is Some <==> fragment_in(block@) is Some,
        data matches Some(d) ==> fragment_in(block@) == Some(d@),
{
    let len: usize = block[0] as usize + 256 * block[1] as usize;
    if LENGTH_PREFIX + len > PARITY_LEN {
        return None;
    }
    let mut data: Vec<u8> = Vec::new();
    let mut i: usize = 0;
    while i < len
        invariant
            i <= len,
            LENGTH_PREFIX + len <= PARITY_LEN,
            data@ == block@.subrange(LENGTH_PREFIX as int, LENGTH_PREFIX + i),
        decreases len - i,
    {
        data.push(block[LENGTH_PREFIX + i]);
        i = i + 1;
        assert(data@ =~= block@.subrange(LENGTH_PREFIX as int, LENGTH_PREFIX + i));
    }
    Some(data)
}

/// A parity block of the right width, as an array.
fn as_block(bytes: Option<&[u8]>) -> (block: Option<[u8; PARITY_LEN]>)
    ensures
        block is Some <==> usable(
            match bytes {
                Some(b) => Some(b@),
                None => None,
            },
        ) is Some,
        block matches Some(b) ==> bytes is Some && b@ == bytes->0@,
{
    match bytes {
        Some(b) => {
            if b.len() != PARITY_LEN {
                return None;
            }
            let mut block: [u8; PARITY_LEN] = [0u8;PARITY_LEN];
            let mut i: usize = 0;
            while i < PARITY_LEN
                invariant
                    i <= PARITY_LEN,
                    b@.len() == PARITY_LEN,
                    forall|k: int| 0 <= k < i ==> #[trigger] block@[k] == b@[k],
                decreases PARITY_LEN - i,
            {
                block[i] = b[i];
                i = i + 1;
            }
            assert(block@ =~= b@);
            Some(block)
        },
        None => None,
    }
}

/// The positions at which nothing is held.
fn find_gaps(fragments: &[Option<Vec<u8>>]) -> (missing: Vec<usize>)
    ensures
        missing@.len() == gaps(held(fragments@)).len(),
        forall|g: int|
            0 <= g < missing@.len() ==> #[trigger] missing@[g] == gaps(held(fragments@))[g],
{
    let ghost all = held(fragments@);
    let mut missing: Vec<usize> = Vec::new();
    let mut i: usize = 0;
    while i < fragments.len()
        invariant
            i <= fragments@.len(),
            all == held(fragments@),
            missing@.len() == gaps(all.take(i as int)).len(),
            forall|g: int|
                0 <= g < missing@.len() ==> #[trigger] missing@[g] == gaps(all.take(i as int))[g],
        decreases fragments@.len() - i,
    {
        proof {
            assert(all.take(i + 1).drop_last() =~= all.take(i as int));
            assert(all.take(i + 1).last() == all[i as int]);
        }
        if fragments[i].is_none() {
            missing.push(i);
        }
        i = i + 1;
    }
    assert(all.take(i as int) =~= all);
    missing
}

/// Rebuilds the missing fragments of a group from whatever parity survived.
///
/// `fragments` is the group in order, with gaps as `None`. `p` and `q` are the
/// group's parity blocks if they arrived. Returns how many were rebuilt.
///
/// Recovers one missing fragment from either parity block, and two from both.
pub fn recover_group(
    fragments: &mut [Option<Vec<u8>>],
    p: Option<&[u8]>,
    q: Option<&[u8]>,
) -> (rebuilt: usize)
    ensures
        ({
            let before = held(old(fragments)@);
            let p = match p {
                Some(block) => Some(block@),
                None => None,
            };
            let q = match q {
                Some(block) => Some(block@),
                None => None,
            };
            match solved(before, p, q) {
                Some(after) => held(final(fragments)@) == after && rebuilt == gaps(before).len(),
                None => final(fragments)@ == old(fragments)@ && rebuilt == 0,
            }
        }),
{
    let ghost all = held(fragments@);
    let missing = find_gaps(fragments);
    let tables = build_tables();
    let p = as_block(p);
    let q = as_block(q);
    proof {
        lemma_gaps(all);
    }
    if missing.len() == 1 {
        let gap: usize = missing[0];
        assert(gaps(all)[0] == gap);
        let block = match p {
            Some(parity) => {
                let mut block = parity;
                take_out(&tables, &mut block, fragments, 0);
                block
            },
            None => match q {
                Some(parity) => {
                    let mut block = parity;
                    take_out(&tables, &mut block, fragments, 1);
                    let w: u8 = coefficient(&tables, gap);
                    proof {
                        gf::lemma_power_nonzero((gap % 255) as nat);
                    }
                    divide_all(&tables, &mut block, w);
                    block
                },
                None => {
                    return 0;
                },
            },
        };
        return match decode_coded(&block) {
            Some(rebuilt) => {
                fragments[gap] = Some(rebuilt);
                assert(held(fragments@) =~= all.update(gap as int, Some(rebuilt@)));
                1
            },
            None => 0,
        };
    }
    if missing.len() == 2 {
        let first: usize = missing[0];
        let second: usize = missing[1];
        assert(gaps(all)[0] == first && gaps(all)[1] == second);
        let (mut a, mut b) = match (p, q) {
            (Some(p), Some(q)) => (p, q),
            _ => {
                return 0;
            },
        };
        take_out(&tables, &mut a, fragments, 0);
        take_out(&tables, &mut b, fragments, 1);
        // The plain sum of the two fragments x and y is a, and their sum under
        // the weights is b, so x is b plus the second weight times a, divided by
        // the sum of the weights.
        let gi: u8 = coefficient(&tables, first);
        let gj: u8 = coefficient(&tables, second);
        let denominator: u8 = gi ^ gj;
        proof {
            lemma_xor(gi, gj, 0);
        }
        if denominator == 0 {
            return 0;
        }
        let mut x: [u8; PARITY_LEN] = [0u8;PARITY_LEN];
        let mut y: [u8; PARITY_LEN] = [0u8;PARITY_LEN];
        let mut k: usize = 0;
        while k < PARITY_LEN
            invariant
                k <= PARITY_LEN,
                tables.valid(),
                denominator == gi ^ gj,
                denominator != 0,
                forall|n: int|
                    0 <= n < k ==> #[trigger] x@[n] == gf::over(
                        b@[n] ^ gf::times(gj, a@[n]),
                        gi ^ gj,
                    ),
                forall|n: int| 0 <= n < k ==> #[trigger] y@[n] == a@[n] ^ x@[n],
            decreases PARITY_LEN - k,
        {
            x[k] = gf_div(&tables, b[k] ^ gf_mul(&tables, gj, a[k]), denominator);
            y[k] = a[k] ^ x[k];
            k = k + 1;
        }
        proof {
            assert(x@ =~= first_of_pair(a@, b@, gi, gj));
            assert(y@ =~= sum_of(a@, x@));
        }
        return match (decode_coded(&x), decode_coded(&y)) {
            (Some(first_data), Some(second_data)) => {
                fragments[first] = Some(first_data);
                fragments[second] = Some(second_data);
                assert(held(fragments@) =~= all.update(first as int, Some(first_data@)).update(
                    second as int,
                    Some(second_data@),
                ));
                2
            },
            _ => 0,
        };
    }
    0
}

/// Divides every byte of a block by `divisor`.
fn divide_all(tables: &Tables, block: &mut [u8; PARITY_LEN], divisor: u8)
    requires
        tables.valid(),
        divisor != 0,
    ensures
        final(block)@ == unweighted(old(block)@, divisor),
{
    let ghost before = block@;
    let mut i: usize = 0;
    while i < PARITY_LEN
        invariant
            i <= PARITY_LEN,
            tables.valid(),
            divisor != 0,
            before.len() == PARITY_LEN,
            forall|k: int|
                0 <= k < PARITY_LEN ==> #[trigger] block@[k] == if k < i {
                    gf::over(before[k], divisor)
                } else {
                    before[k]
                },
        decreases PARITY_LEN - i,
    {
        block[i] = gf_div(tables, block[i], divisor);
        i = i + 1;
    }
    assert(block@ =~= unweighted(before, divisor));
}

/// Whether a coded block holds a fragment of a plausible length and nothing but
/// padding behind it.
pub open spec fn is_padded(block: Seq<u8>) -> bool {
    fragment_in(block) matches Some(data) && forall|k: int|
        LENGTH_PREFIX + data.len() <= k < PARITY_LEN ==> #[trigger] block[k] == 0
}

/// What [`recover`] makes of a parity block and the surviving fragments.
pub open spec fn recovered(parity: Seq<u8>, present: Seq<Seq<u8>>) -> Option<Seq<u8>> {
    let block = residual(0, parity, complete(present));
    if parity.len() == PARITY_LEN && is_padded(block) {
        fragment_in(block)
    } else {
        None
    }
}

/// Whether only padding stands in a block from byte `from` on.
fn is_padding(block: &[u8; PARITY_LEN], from: usize) -> (empty: bool)
    ensures
        empty == forall|k: int| from <= k < PARITY_LEN ==> #[trigger] block@[k] == 0,
{
    let mut i: usize = from;
    while i < PARITY_LEN
        invariant
            from <= i,
            forall|k: int| from <= k < i && k < PARITY_LEN ==> #[trigger] block@[k] == 0,
        decreases PARITY_LEN - i,
    {
        if block[i] != 0 {
            assert(block@[i as int] != 0);
            return false;
        }
        i = i + 1;
    }
    true
}

/// Rebuilds the one fragment missing from a group.
///
/// `present` holds the group's surviving fragments, already decoded. Returns
/// `None` if the parity block is the wrong shape or the result is nonsense,
/// which is what a second loss in the same group looks like.
pub fn recover(parity: &[u8], present: &[&[u8]]) -> (fragment: Option<Vec<u8>>)
    ensures
        ({
            let rebuilt = recovered(parity@, present@.map_values(|data: &[u8]| data@));
            &&& fragment is Some <==> rebuilt is Some
            &&& fragment matches Some(data) ==> rebuilt == Some(data@)
        }),
{
    let mut block = match as_block(Some(parity)) {
        Some(block) => block,
        None => {
            return None;
        },
    };
    let tables = build_tables();
    let ghost before = block@;
    let ghost all = complete(present@.map_values(|data: &[u8]| data@));
    let mut i: usize = 0;
    proof {
        assert forall|k: int| 0 <= k < PARITY_LEN implies #[trigger] block@[k] == before[k]
            ^ sum_at(0, all.take(0), k) by {
            lemma_xor(before[k], 0, 0);
        }
    }
    while i < present.len()
        invariant
            i <= present@.len(),
            tables.valid(),
            before.len() == PARITY_LEN,
            all == complete(present@.map_values(|data: &[u8]| data@)),
            forall|k: int|
                0 <= k < PARITY_LEN ==> #[trigger] block@[k] == before[k] ^ sum_at(
                    0,
                    all.take(i as int),
                    k,
                ),
        decreases present@.len() - i,
    {
        let ghost current = block@;
        accumulate_with(&tables, &mut block, present[i], 0, 0);
        proof {
            assert(all.take(i + 1).drop_last() =~= all.take(i as int));
            assert(all.take(i + 1).last() == all[i as int]);
            assert forall|k: int| 0 <= k < PARITY_LEN implies #[trigger] block@[k] == before[k]
                ^ sum_at(0, all.take(i + 1), k) by {
                lemma_xor(
                    before[k],
                    sum_at(0, all.take(i as int), k),
                    share(0, i as nat, all[i as int], k),
                );
            }
        }
        i = i + 1;
    }
    proof {
        assert(all.take(i as int) =~= all);
        assert(block@ =~= residual(0, before, all));
    }
    // What is left of two fragments rather than one rarely ends where its length
    // says it does.
    match decode_coded(&block) {
        Some(data) => if is_padding(&block, LENGTH_PREFIX + data.len()) {
            Some(data)
        } else {
            None
        },
        None => None,
    }
}

/// Whether everything that is held of a group is as it was sent.
pub open spec fn true_to(fragments: Seq<Option<Seq<u8>>>, group: Seq<Seq<u8>>) -> bool {
    &&& fragments.len() == group.len()
    &&& forall|i: int|
        0 <= i < fragments.len() && (#[trigger] fragments[i]) is Some ==> fragments[i] == Some(
            group[i],
        )
}

/// Whether every fragment of a group fits a block.
pub open spec fn fits(group: Seq<Seq<u8>>) -> bool {
    forall|i: int| 0 <= i < group.len() ==> (#[trigger] group[i]).len() <= BLOCK
}

/// Filling a gap adds the fragment's term to the sum.
proof fn lemma_sum_fill(
    level: nat,
    fragments: Seq<Option<Seq<u8>>>,
    i: int,
    data: Seq<u8>,
    k: int,
)
    requires
        0 <= i < fragments.len(),
        fragments[i] is None,
    ensures
        sum_at(level, fragments.update(i, Some(data)), k) == sum_at(level, fragments, k) ^ term(
            level,
            i as nat,
            data,
            k,
        ),
    decreases fragments.len(),
{
    let rest = fragments.drop_last();
    let filled = fragments.update(i, Some(data));
    let added = term(level, i as nat, data, k);
    let last = share(level, (fragments.len() - 1) as nat, fragments.last(), k);
    if i == fragments.len() - 1 {
        assert(filled.drop_last() =~= rest);
        lemma_xor(sum_at(level, rest, k), 0, 0);
    } else {
        assert(filled.drop_last() =~= rest.update(i, Some(data)));
        lemma_sum_fill(level, rest, i, data, k);
        lemma_xor(sum_at(level, rest, k), added, last);
    }
}

/// A coded fragment reads back as the fragment.
proof fn lemma_coded_roundtrip(data: Seq<u8>, block: Seq<u8>)
    requires
        data.len() <= BLOCK,
        block.len() == PARITY_LEN,
        forall|k: int| 0 <= k < PARITY_LEN ==> #[trigger] block[k] == coded(data)[k],
    ensures
        fragment_in(block) == Some(data),
        is_padded(block),
{
    assert(block[0] + 256 * block[1] == data.len());
    assert(block.subrange(LENGTH_PREFIX as int, LENGTH_PREFIX + data.len()) =~= data);
}

/// Two unknowns from their plain and their weighted sum.
proof fn lemma_pair(x: u8, y: u8, gi: u8, gj: u8)
    requires
        gi != gj,
    ensures
        gf::over(
            (gf::times(x, gi) ^ gf::times(y, gj)) ^ gf::times(gj, x ^ y),
            gi ^ gj,
        ) == x,
        (x ^ y) ^ x == y,
{
    gf::law_times_commutes(gj, x ^ y);
    gf::lemma_times_left(x, y, gj);
    gf::lemma_times_right(x, gi, gj);
    let xi = gf::times(x, gi);
    let xj = gf::times(x, gj);
    let yj = gf::times(y, gj);
    lemma_xor(xi ^ yj, xj, yj);
    lemma_xor(xi ^ yj, yj, xj);
    lemma_xor(xj, yj, 0);
    lemma_xor(xi, yj, 0);
    lemma_xor(gi, gj, 0);
    lemma_xor(y, x, 0);
    lemma_xor(x, y, 0);
    gf::lemma_quotient_unique(x, xi ^ xj, gi ^ gj);
}

/// Filling the gaps of a true group with what was sent makes it complete.
proof fn lemma_filled_is_complete(
    group: Seq<Seq<u8>>,
    fragments: Seq<Option<Seq<u8>>>,
    filled: Seq<Option<Seq<u8>>>,
)
    requires
        true_to(fragments, group),
        filled.len() == group.len(),
        forall|n: int|
            0 <= n < filled.len() ==> #[trigger] filled[n] == if gaps(fragments).contains(
                n as nat,
            ) {
                Some(group[n])
            } else {
                fragments[n]
            },
    ensures
        filled == complete(group),
{
    lemma_gaps(fragments);
    assert forall|n: int| 0 <= n < filled.len() implies #[trigger] filled[n] == complete(
        group,
    )[n] by {
        if fragments[n] is None {
            assert(gaps(fragments).contains(n as nat));
        }
    }
    assert(filled =~= complete(group));
}

/// What a parity block leaves once all but one fragment are taken out of it.
proof fn lemma_residual_of_one(
    level: nat,
    group: Seq<Seq<u8>>,
    fragments: Seq<Option<Seq<u8>>>,
    i: int,
    k: int,
)
    requires
        0 <= i < fragments.len(),
        fragments[i] is None,
        fragments.update(i, Some(group[i])) == complete(group),
        0 <= k < PARITY_LEN,
    ensures
        residual(level, parity_of(level, group), fragments)[k] == term(
            level,
            i as nat,
            group[i],
            k,
        ),
{
    let (rest, own) = (sum_at(level, fragments, k), term(level, i as nat, group[i], k));
    lemma_sum_fill(level, fragments, i, group[i], k);
    lemma_xor(rest, own, 0);
    lemma_xor(own, rest, 0);
}

/// What a parity block leaves once all but two fragments are taken out of it.
proof fn lemma_residual_of_two(
    level: nat,
    group: Seq<Seq<u8>>,
    fragments: Seq<Option<Seq<u8>>>,
    i: int,
    j: int,
    k: int,
)
    requires
        0 <= i < j < fragments.len(),
        fragments[i] is None,
        fragments[j] is None,
        fragments.update(i, Some(group[i])).update(j, Some(group[j])) == complete(group),
        0 <= k < PARITY_LEN,
    ensures
        residual(level, parity_of(level, group), fragments)[k] == term(
            level,
            i as nat,
            group[i],
            k,
        ) ^ term(level, j as nat, group[j], k),
{
    let rest = sum_at(level, fragments, k);
    let (u, v) = (term(level, i as nat, group[i], k), term(level, j as nat, group[j], k));
    lemma_sum_fill(level, fragments, i, group[i], k);
    lemma_sum_fill(level, fragments.update(i, Some(group[i])), j, group[j], k);
    lemma_xor(rest, u, v);
    lemma_xor(rest, u ^ v, 0);
    lemma_xor(u ^ v, rest, 0);
}

proof fn lemma_one_gap_is_rebuilt(
    group: Seq<Seq<u8>>,
    fragments: Seq<Option<Seq<u8>>>,
    p: Option<Seq<u8>>,
    q: Option<Seq<u8>>,
)
    requires
        fits(group),
        true_to(fragments, group),
        p matches Some(block) ==> block == parity_of(0, group),
        q matches Some(block) ==> block == parity_of(1, group),
        gaps(fragments).len() == 1,
        p is Some || q is Some,
    ensures
        solved(fragments, p, q) == Some(complete(group)),
{
    lemma_gaps(fragments);
    let i = gaps(fragments)[0];
    let data = group[i as int];
    let filled = fragments.update(i as int, Some(data));
    assert(filled == complete(group)) by {
        assert forall|n: int| 0 <= n < filled.len() implies #[trigger] filled[n] == if gaps(
            fragments,
        ).contains(n as nat) {
            Some(group[n])
        } else {
            fragments[n]
        } by {
            assert(gaps(fragments).contains(i)) by {
                assert(gaps(fragments)[0] == i);
            }
        }
        lemma_filled_is_complete(group, fragments, filled);
    }
    let w = weight(1, i);
    gf::lemma_power_nonzero(i % 255);
    let block = if p is Some {
        residual(0, p->0, fragments)
    } else {
        unweighted(residual(1, q->0, fragments), w)
    };
    assert forall|k: int| 0 <= k < PARITY_LEN implies #[trigger] block[k] == coded(data)[k] by {
        if p is Some {
            lemma_residual_of_one(0, group, fragments, i as int, k);
            gf::lemma_times_units(coded(data)[k]);
        } else {
            lemma_residual_of_one(1, group, fragments, i as int, k);
            gf::law_division_undoes_multiplication(coded(data)[k], w);
        }
    }
    lemma_coded_roundtrip(data, block);
}

/// A group with both its gaps filled is complete.
proof fn lemma_two_gaps_filled(group: Seq<Seq<u8>>, fragments: Seq<Option<Seq<u8>>>)
    requires
        true_to(fragments, group),
        gaps(fragments).len() == 2,
    ensures
        ({
            let (i, j) = (gaps(fragments)[0], gaps(fragments)[1]);
            &&& i < j < fragments.len()
            &&& fragments[i as int] is None
            &&& fragments[j as int] is None
            &&& fragments.update(i as int, Some(group[i as int])).update(
                j as int,
                Some(group[j as int]),
            ) == complete(group)
        }),
{
    lemma_gaps(fragments);
    let (i, j) = (gaps(fragments)[0], gaps(fragments)[1]);
    assert(i < j);
    let filled = fragments.update(i as int, Some(group[i as int])).update(
        j as int,
        Some(group[j as int]),
    );
    assert forall|n: int| 0 <= n < filled.len() implies #[trigger] filled[n] == if gaps(
        fragments,
    ).contains(n as nat) {
        Some(group[n])
    } else {
        fragments[n]
    } by {
        assert(gaps(fragments)[0] == i && gaps(fragments)[1] == j);
        assert(gaps(fragments).contains(i) && gaps(fragments).contains(j));
    }
    lemma_filled_is_complete(group, fragments, filled);
}

/// Byte `k` of both missing fragments, from what both parity blocks leave.
proof fn lemma_two_unknowns(
    group: Seq<Seq<u8>>,
    fragments: Seq<Option<Seq<u8>>>,
    i: nat,
    j: nat,
    k: int,
)
    requires
        i < j < fragments.len(),
        group.len() <= 255,
        fragments.len() == group.len(),
        fragments[i as int] is None,
        fragments[j as int] is None,
        fragments.update(i as int, Some(group[i as int])).update(j as int, Some(group[j as int]))
            == complete(group),
        0 <= k < PARITY_LEN,
    ensures
        ({
            let a = residual(0, parity_of(0, group), fragments);
            let b = residual(1, parity_of(1, group), fragments);
            let x = first_of_pair(a, b, weight(1, i), weight(1, j));
            &&& weight(1, i) != weight(1, j)
            &&& x[k] == coded(group[i as int])[k]
            &&& sum_of(a, x)[k] == coded(group[j as int])[k]
        }),
{
    let (u, v) = (coded(group[i as int])[k], coded(group[j as int])[k]);
    gf::law_powers_are_distinct(i, j);
    lemma_residual_of_two(0, group, fragments, i as int, j as int, k);
    lemma_residual_of_two(1, group, fragments, i as int, j as int, k);
    gf::lemma_times_units(u);
    gf::lemma_times_units(v);
    lemma_pair(u, v, weight(1, i), weight(1, j));
}

proof fn lemma_two_gaps_are_rebuilt(
    group: Seq<Seq<u8>>,
    fragments: Seq<Option<Seq<u8>>>,
    p: Option<Seq<u8>>,
    q: Option<Seq<u8>>,
)
    requires
        fits(group),
        true_to(fragments, group),
        p == Some(parity_of(0, group)),
        q == Some(parity_of(1, group)),
        gaps(fragments).len() == 2,
        group.len() <= 255,
    ensures
        solved(fragments, p, q) == Some(complete(group)),
{
    lemma_two_gaps_filled(group, fragments);
    let (i, j) = (gaps(fragments)[0], gaps(fragments)[1]);
    let (first, second) = (group[i as int], group[j as int]);
    let a = residual(0, parity_of(0, group), fragments);
    let b = residual(1, parity_of(1, group), fragments);
    let x = first_of_pair(a, b, weight(1, i), weight(1, j));
    let y = sum_of(a, x);
    lemma_two_unknowns(group, fragments, i, j, 0);
    assert forall|k: int| 0 <= k < PARITY_LEN implies #[trigger] x[k] == coded(first)[k] by {
        lemma_two_unknowns(group, fragments, i, j, k);
    }
    assert forall|k: int| 0 <= k < PARITY_LEN implies #[trigger] y[k] == coded(second)[k] by {
        lemma_two_unknowns(group, fragments, i, j, k);
    }
    lemma_coded_roundtrip(first, x);
    lemma_coded_roundtrip(second, y);
    assert(usable(p) == p && usable(q) == q);
}

/// A group with one gap comes back byte for byte from either parity block alone,
/// and a group of up to 255 with two gaps from both.
pub proof fn law_recovery_is_exact(
    group: Seq<Seq<u8>>,
    fragments: Seq<Option<Seq<u8>>>,
    p: Option<Seq<u8>>,
    q: Option<Seq<u8>>,
)
    requires
        fits(group),
        true_to(fragments, group),
        p matches Some(block) ==> block == parity_of(0, group),
        q matches Some(block) ==> block == parity_of(1, group),
        gaps(fragments).len() == 1 ==> p is Some || q is Some,
        gaps(fragments).len() == 2 ==> p is Some && q is Some && group.len() <= 255,
        1 <= gaps(fragments).len() <= 2,
    ensures
        solved(fragments, p, q) == Some(complete(group)),
{
    if gaps(fragments).len() == 1 {
        lemma_one_gap_is_rebuilt(group, fragments, p, q);
    } else {
        lemma_two_gaps_are_rebuilt(group, fragments, p, q);
    }
}

/// Three or more gaps, two gaps without both parity blocks, and a gap without
/// any parity block are left alone rather than guessed.
pub proof fn law_too_many_losses_are_refused(
    fragments: Seq<Option<Seq<u8>>>,
    p: Option<Seq<u8>>,
    q: Option<Seq<u8>>,
)
    requires
        gaps(fragments).len() > 2 || (gaps(fragments).len() == 2 && (p is None || q is None)) || (
        gaps(fragments).len() == 1 && p is None && q is None),
    ensures
        solved(fragments, p, q) is None,
{
}

/// Removing a fragment from a group removes its term from the plain sum.
proof fn lemma_sum_without(group: Seq<Seq<u8>>, missing: int, k: int)
    requires
        0 <= missing < group.len(),
        0 <= k < PARITY_LEN,
    ensures
        sum_at(0, complete(group), k) == sum_at(0, complete(group.remove(missing)), k) ^ coded(
            group[missing],
        )[k],
    decreases group.len(),
{
    let rest = group.drop_last();
    let all = complete(group);
    let without = complete(group.remove(missing));
    let gone = coded(group[missing])[k];
    gf::lemma_times_units(gone);
    gf::lemma_times_units(coded(group.last())[k]);
    assert(all.drop_last() =~= complete(rest));
    if missing == group.len() - 1 {
        assert(group.remove(missing) =~= rest);
    } else {
        assert(without.drop_last() =~= complete(rest.remove(missing)));
        assert(without.last() == Some(group.last()));
        lemma_sum_without(rest, missing, k);
        lemma_xor(
            sum_at(0, complete(rest.remove(missing)), k),
            gone,
            coded(group.last())[k],
        );
    }
}

/// Any single missing fragment of a group is rebuilt from the plain parity block
/// and the others, at its true length.
pub proof fn law_recover_is_exact(group: Seq<Seq<u8>>, missing: int)
    requires
        fits(group),
        0 <= missing < group.len(),
    ensures
        recovered(parity_of(0, group), group.remove(missing)) == Some(group[missing]),
{
    let parity = parity_of(0, group);
    let block = residual(0, parity, complete(group.remove(missing)));
    let data = group[missing];
    assert forall|k: int| 0 <= k < PARITY_LEN implies #[trigger] block[k] == coded(data)[k] by {
        lemma_sum_without(group, missing, k);
        lemma_xor(coded(data)[k], sum_at(0, complete(group.remove(missing)), k), 0);
    }
    lemma_coded_roundtrip(data, block);
}

/// Two missing fragments of one length are not mistaken for one: unless they are
/// the same, byte for byte, nothing is rebuilt.
pub proof fn law_two_losses_are_refused(group: Seq<Seq<u8>>, first: int, second: int)
    requires
        fits(group),
        0 <= first < second < group.len(),
        group[first].len() == group[second].len(),
        group[first] != group[second],
    ensures
        recovered(parity_of(0, group), group.remove(second).remove(first)) is None,
{
    let rest = group.remove(second).remove(first);
    let (a, b) = (group[first], group[second]);
    let block = residual(0, parity_of(0, group), complete(rest));
    assert(group.remove(second)[first] == a);
    assert forall|k: int| 0 <= k < PARITY_LEN implies #[trigger] block[k] == coded(a)[k]
        ^ coded(b)[k] by {
        lemma_sum_without(group, second, k);
        lemma_sum_without(group.remove(second), first, k);
        let left = sum_at(0, complete(rest), k);
        lemma_xor(left, coded(a)[k], coded(b)[k]);
        lemma_xor(left, coded(a)[k] ^ coded(b)[k], 0);
        lemma_xor(coded(a)[k] ^ coded(b)[k], left, 0);
    }
    lemma_xor(coded(a)[0], coded(b)[0], 0);
    lemma_xor(coded(a)[1], coded(b)[1], 0);
    assert(block[0] == 0 && block[1] == 0);
    assert(fragment_in(block) =~= Some(seq![]));
    let k = choose|k: int| 0 <= k < a.len() && a[k] != b[k];
    assert(exists|k: int| 0 <= k < a.len() && a[k] != b[k]) by {
        if forall|k: int| 0 <= k < a.len() ==> a[k] == b[k] {
            assert(a =~= b);
        }
    }
    let at = k + LENGTH_PREFIX;
    assert(a.len() <= BLOCK);
    assert(coded(a)[at] == a[k] && coded(b)[at] == b[k]);
    lemma_xor(a[k], b[k], 0);
    assert(block[at] != 0);
}

} // verus!
