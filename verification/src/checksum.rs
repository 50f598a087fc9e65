//! The rolling XOR checksum that guards block transfers.

use vstd::prelude::*;

verus! {

/// Seed of every block checksum.
pub const CHECKSUM_SEED: u8 = 0xEF;

/// XOR of `seed` with every byte of `data`.
pub open spec fn xor_fold(data: Seq<u8>, seed: u8) -> u8
    decreases data.len(),
{
    if data.len() == 0 {
        seed
    } else {
        xor_fold(data.drop_last(), seed) ^ data.last()
    }
}

/// Folds every byte of `data` into `seed` with XOR.
pub fn checksum(data: &[u8], seed: u8) -> (sum: u8)
    ensures
        sum == xor_fold(data@, seed),
{
    let mut acc: u8 = seed;
    let mut i: usize = 0;
    while i < data.len()
        invariant
            i <= data.len(),
            acc == xor_fold(data@.subrange(0, i as int), seed),
        decreases data.len() - i,
    {
        assert(data@.subrange(0, i + 1).drop_last() =~= data@.subrange(0, i as int));
        acc = acc ^ data[i];
        i += 1;
    }
    assert(data@.subrange(0, i as int) =~= data@);
    acc
}

/// Taking one byte out of the data takes exactly that byte out of the sum.
pub proof fn lemma_xor_fold_remove(data: Seq<u8>, i: int, seed: u8)
    requires
        0 <= i < data.len(),
    ensures
        xor_fold(data, seed) == xor_fold(data.remove(i), seed) ^ data[i],
    decreases data.len(),
{
    if i == data.len() - 1 {
        assert(data.remove(i) =~= data.drop_last());
    } else {
        let rest = data.remove(i);
        assert(rest.drop_last() =~= data.drop_last().remove(i));
        assert(rest.last() == data.last());
        lemma_xor_fold_remove(data.drop_last(), i, seed);
        let a = xor_fold(rest.drop_last(), seed);
        let b = data[i];
        let c = data.last();
        assert((a ^ b) ^ c == (a ^ c) ^ b) by (bit_vector);
    }
}

/// The checksum does not see the order of the bytes: two sequences that hold
/// the same bytes, each as often as the other, have the same sum.
pub proof fn lemma_checksum_ignores_order(a: Seq<u8>, b: Seq<u8>, seed: u8)
    requires
        a.to_multiset() == b.to_multiset(),
    ensures
        xor_fold(a, seed) == xor_fold(b, seed),
    decreases a.len(),
{
    a.to_multiset_ensures();
    b.to_multiset_ensures();
    if a.len() == 0 {
        assert(b.len() == 0);
    } else {
        let x = a.last();
        assert(a[a.len() - 1] == x);
        assert(a.contains(x));
        assert(a.to_multiset().count(x) > 0);
        assert(b.to_multiset().count(x) > 0);
        assert(b.contains(x));
        let j = choose|j: int| 0 <= j < b.len() && b[j] == x;
        assert(a.remove(a.len() - 1) =~= a.drop_last());
        assert(a.drop_last().to_multiset() == b.remove(j).to_multiset());
        lemma_checksum_ignores_order(a.drop_last(), b.remove(j), seed);
        lemma_xor_fold_remove(b, j, seed);
    }
}

} // verus!
