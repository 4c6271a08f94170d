//! Audio samples as bytes.
//!
//! A sample is a 32-bit float, handled here as the number with the same bits:
//! the link moves samples without computing on them.

use vstd::prelude::*;

use crate::endian;
use crate::endian::{push_le, read_le};

verus! {

/// The bytes of samples, one after the other, each least significant byte first.
pub open spec fn sample_bytes(samples: Seq<u32>) -> Seq<u8>
    decreases samples.len(),
{
    if samples.len() == 0 {
        seq![]
    } else {
        sample_bytes(samples.drop_last()) + endian::le_bytes(samples.last() as nat, 4)
    }
}

/// The samples that whole groups of four bytes stand for.
pub open spec fn samples_in(bytes: Seq<u8>) -> Seq<u32> {
    Seq::new(bytes.len() / 4, |i: int| endian::le_value(bytes.subrange(4 * i, 4 * i + 4)) as u32)
}

pub proof fn lemma_sample_bytes(samples: Seq<u32>)
    ensures
        sample_bytes(samples).len() == 4 * samples.len(),
        forall|i: int|
            0 <= i < samples.len() ==> sample_bytes(samples).subrange(4 * i, 4 * i + 4)
                == endian::le_bytes(#[trigger] samples[i] as nat, 4),
    decreases samples.len(),
{
    broadcast use endian::lemma_le_bytes_len;

    if samples.len() > 0 {
        let rest = samples.drop_last();
        lemma_sample_bytes(rest);
        let all = sample_bytes(samples);
        assert forall|i: int| 0 <= i < samples.len() implies all.subrange(4 * i, 4 * i + 4)
            == endian::le_bytes(#[trigger] samples[i] as nat, 4) by {
            if i < rest.len() {
                assert(rest[i] == samples[i]);
                assert(all.subrange(4 * i, 4 * i + 4) =~= sample_bytes(rest).subrange(
                    4 * i,
                    4 * i + 4,
                ));
            } else {
                assert(all.subrange(4 * i, 4 * i + 4) =~= endian::le_bytes(
                    samples.last() as nat,
                    4,
                ));
            }
        }
    }
}

/// Samples read back from their bytes are the samples.
pub proof fn law_samples_roundtrip(samples: Seq<u32>)
    ensures
        samples_in(sample_bytes(samples)) == samples,
        sample_bytes(samples).len() == 4 * samples.len(),
{
    lemma_sample_bytes(samples);
    endian::lemma_pow256_values();
    let back = samples_in(sample_bytes(samples));
    assert forall|i: int| 0 <= i < samples.len() implies back[i] == samples[i] by {
        endian::law_value_of_bytes(samples[i] as nat, 4);
    }
    assert(back =~= samples);
}

/// Appends the bytes of `samples` from `start` to `end`.
pub fn append_samples(out: &mut Vec<u8>, samples: &[u32], start: usize, end: usize)
    requires
        start <= end <= samples@.len(),
    ensures
        final(out)@ == old(out)@ + sample_bytes(samples@.subrange(start as int, end as int)),
{
    let mut i: usize = start;
    assert(out@ =~= old(out)@ + sample_bytes(samples@.subrange(start as int, start as int)));
    while i < end
        invariant
            start <= i <= end <= samples@.len(),
            out@ == old(out)@ + sample_bytes(samples@.subrange(start as int, i as int)),
        decreases end - i,
    {
        push_le(out, samples[i] as u64, 4);
        proof {
            let longer = samples@.subrange(start as int, i + 1);
            assert(longer.drop_last() =~= samples@.subrange(start as int, i as int));
            assert(out@ =~= old(out)@ + sample_bytes(longer));
        }
        i = i + 1;
    }
}

/// Sample `i` of a block.
pub fn read_sample(bytes: &[u8], i: usize) -> (sample: u32)
    requires
        4 * i + 4 <= bytes@.len(),
    ensures
        sample == samples_in(bytes@)[i as int],
{
    let len: usize = bytes.len();
    proof {
        endian::lemma_pow256_values();
    }
    read_le(bytes, 4 * i, 4) as u32
}

/// A sample is four bytes, the least significant first, and samples follow each
/// other without gaps.
pub proof fn law_samples_are_four_bytes_each(bytes: Seq<u8>, i: int)
    requires
        0 <= i,
        4 * i + 4 <= bytes.len(),
    ensures
        i < samples_in(bytes).len() == bytes.len() / 4,
        samples_in(bytes)[i] == bytes[4 * i] + 0x100 * bytes[4 * i + 1] + 0x1_0000 * bytes[4 * i
            + 2] + 0x100_0000 * bytes[4 * i + 3],
{
    let four = bytes.subrange(4 * i, 4 * i + 4);
    endian::law_numbers_start_with_their_low_byte(four);
    assert(four[0] == bytes[4 * i] && four[1] == bytes[4 * i + 1] && four[2] == bytes[4 * i + 2]
        && four[3] == bytes[4 * i + 3]);
}

} // verus!
