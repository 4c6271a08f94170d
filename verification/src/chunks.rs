//! Cutting a byte sequence into equal blocks, the last one possibly short.

use vstd::prelude::*;

verus! {

/// How many blocks of `size` it takes to hold `len` bytes. An empty sequence
/// still takes one, which is empty.
pub open spec fn block_count(len: nat, size: nat) -> nat {
    if len == 0 {
        1
    } else {
        ((len + size - 1) / size as int) as nat
    }
}

/// Block `i` of `data`.
pub open spec fn block(data: Seq<u8>, size: nat, i: int) -> Seq<u8> {
    let start = i * size;
    let end = if start + size <= data.len() {
        start + size
    } else {
        data.len() as int
    };
    data.subrange(start, end)
}

/// All blocks of `data` in order.
pub open spec fn blocks(data: Seq<u8>, size: nat) -> Seq<Seq<u8>> {
    Seq::new(block_count(data.len(), size), |i: int| block(data, size, i))
}

/// The blocks put back together.
pub open spec fn joined(parts: Seq<Seq<u8>>) -> Seq<u8>
    decreases parts.len(),
{
    if parts.len() == 0 {
        seq![]
    } else {
        joined(parts.drop_last()) + parts.last()
    }
}

/// There is always at least one block.
pub proof fn lemma_block_count_positive(len: nat, size: nat)
    requires
        size > 0,
    ensures
        block_count(len, size) >= 1,
{
    if len > 0 {
        let l = len as int;
        let s = size as int;
        assert((l + s - 1) / s >= 1) by (nonlinear_arith)
            requires
                l >= 1,
                s >= 1,
        ;
    }
}

/// Block `i` starts inside the data, and only the last may be short.
pub proof fn lemma_block_bounds(len: nat, size: nat, i: int)
    requires
        size > 0,
        0 <= i < block_count(len, size),
    ensures
        0 <= i * size <= len,
        i + 1 < block_count(len, size) ==> (i + 1) * size < len,
        i + 1 == block_count(len, size) ==> len <= (i + 1) * size,
        (i + 1) * size == i * size + size,
{
    let n = block_count(len, size);
    assert((i + 1) * size == i * size + size) by (nonlinear_arith);
    if len == 0 {
        assert(i == 0);
        assert(0 * size == 0) by (nonlinear_arith);
    } else {
        let q = (len + size - 1) / size as int;
        assert(size * q <= len + size - 1 < size * q + size) by (nonlinear_arith)
            requires
                q == (len + size - 1) / size as int,
                size > 0,
        ;
        assert(size * q == q * size) by (nonlinear_arith);
        assert(i * size + size <= q * size && (i + 1 < q ==> i * size + 2 * size <= q * size)
            && i * size >= 0) by (nonlinear_arith)
            requires
                0 <= i < q,
                size > 0,
        ;
        if i + 1 == n {
            assert((i + 1) * size == q * size);
        }
    }
}

/// Every block is at most `size` long.
pub proof fn lemma_block_len(data: Seq<u8>, size: nat, i: int)
    requires
        size > 0,
        0 <= i < block_count(data.len(), size),
    ensures
        block(data, size, i).len() <= size,
        i + 1 < block_count(data.len(), size) ==> block(data, size, i).len() == size,
{
    lemma_block_bounds(data.len(), size, i);
}

proof fn lemma_joined_prefix(data: Seq<u8>, size: nat, n: int)
    requires
        size > 0,
        0 <= n <= block_count(data.len(), size),
    ensures
        n < block_count(data.len(), size) ==> joined(blocks(data, size).take(n)) == data.take(
            n * size,
        ),
        n == block_count(data.len(), size) ==> joined(blocks(data, size).take(n)) == data,
    decreases n,
{
    let all = blocks(data, size);
    lemma_block_count_positive(data.len(), size);
    if n == 0 {
        assert(0 * size == 0) by (nonlinear_arith);
        assert(joined(all.take(0)) =~= data.take(0));
    } else {
        lemma_joined_prefix(data, size, n - 1);
        lemma_block_bounds(data.len(), size, n - 1);
        assert(all.take(n).drop_last() =~= all.take(n - 1));
        assert(all.take(n).last() == block(data, size, n - 1));
        let joined_all = data.take((n - 1) * size) + block(data, size, n - 1);
        if n < block_count(data.len(), size) {
            assert(joined_all =~= data.take(n * size));
        } else {
            assert(joined_all =~= data);
        }
    }
}

/// Joining the blocks of a sequence gives the sequence back.
pub proof fn law_blocks_join(data: Seq<u8>, size: nat)
    requires
        size > 0,
    ensures
        joined(blocks(data, size)) == data,
{
    let n = block_count(data.len(), size) as int;
    assert(n >= 0);
    lemma_joined_prefix(data, size, n);
    assert(blocks(data, size).take(n) =~= blocks(data, size));
}

/// How many blocks of `size` hold `len` bytes.
pub fn count_blocks(len: usize, size: usize) -> (count: usize)
    requires
        size > 0,
    ensures
        count == block_count(len as nat, size as nat),
        count >= 1,
        count <= len || len == 0,
{
    if len == 0 {
        return 1;
    }
    let count: usize = (len - 1) / size + 1;
    proof {
        let l = len as int;
        let s = size as int;
        assert((l + s - 1) / s == (l - 1) / s + 1) by (nonlinear_arith)
            requires
                l >= 1,
                s >= 1,
        ;
        assert((l - 1) / s <= l - 1) by (nonlinear_arith)
            requires
                l >= 1,
                s >= 1,
        ;
    }
    count
}

/// Block `i` of `data`.
pub fn take_block(data: &[u8], size: usize, i: usize) -> (part: &[u8])
    requires
        size > 0,
        i < block_count(data@.len(), size as nat),
    ensures
        part@ == block(data@, size as nat, i as int),
{
    proof {
        lemma_block_bounds(data@.len(), size as nat, i as int);
        vstd::arithmetic::mul::lemma_mul_is_commutative(i as int, size as int);
    }
    let len: usize = data.len();
    let start: usize = i * size;
    let end: usize = if len - start >= size {
        start + size
    } else {
        len
    };
    vstd::slice::slice_subrange(data, start, end)
}

/// Blocks are put together one behind the other.
pub proof fn law_joining_appends(parts: Seq<Seq<u8>>, last: Seq<u8>)
    ensures
        joined(seq![]) == Seq::<u8>::empty(),
        joined(parts.push(last)) == joined(parts) + last,
{
    assert(parts.push(last).drop_last() =~= parts);
}

/// There are as many blocks as are needed and no more, each is what stands at its
/// place, and all but the last are full.
pub proof fn law_blocks_stand_one_behind_the_other(data: Seq<u8>, size: nat, i: int)
    requires
        size > 0,
        0 <= i < blocks(data, size).len(),
    ensures
        ({
            let all = blocks(data, size);
            &&& data.len() == 0 ==> all.len() == 1
            &&& data.len() > 0 ==> (all.len() - 1) * size < data.len() <= all.len() * size
            &&& i < all.len() - 1 ==> all[i].len() == size
            &&& all[i].len() <= size
            &&& 0 <= i * size
            &&& i * size + all[i].len() <= data.len()
            &&& all[i] == data.subrange(i * size, i * size + all[i].len())
        }),
{
    let all = blocks(data, size);
    lemma_block_bounds(data.len(), size, i);
    lemma_block_len(data, size, i);
    lemma_block_bounds(data.len(), size, all.len() - 1);
    if all.len() > 1 {
        lemma_block_bounds(data.len(), size, all.len() - 2);
    } else {
        assert(0 * size == 0) by (nonlinear_arith);
    }
}

} // verus!
