//! Bit masks packed into 64-bit words, least-significant bit first: bit `i`
//! of a mask is bit `i % 64` of word `i / 64`.

use vstd::prelude::*;

verus! {

/// Whether bit `b` (counted from the least significant) of `w` is set.
pub open spec fn word_bit(w: u64, b: u64) -> bool {
    (w >> b) & 1 == 1
}

/// Whether bit `i` of the mask is set.
pub open spec fn mask_bit(mask: Seq<u64>, i: int) -> bool {
    word_bit(mask[i / 64], (i % 64) as u64)
}

/// The mask with bit `i` set and every other bit as it is.
pub open spec fn with_bit(mask: Seq<u64>, i: int) -> Seq<u64> {
    mask.update(i / 64, mask[i / 64] | (1u64 << ((i % 64) as u64)))
}

/// The mask with bit `i` clear and every other bit as it is.
pub open spec fn without_bit(mask: Seq<u64>, i: int) -> Seq<u64> {
    mask.update(i / 64, mask[i / 64] & !(1u64 << ((i % 64) as u64)))
}

/// The mask of `words` words with no bit set.
pub open spec fn zero_mask(words: nat) -> Seq<u64> {
    Seq::new(words, |i: int| 0u64)
}

/// Number of set bits among the first `n` bits of the mask.
pub open spec fn count_ones(mask: Seq<u64>, n: nat) -> nat
    decreases n,
{
    if n == 0 {
        0
    } else {
        count_ones(mask, (n - 1) as nat) + if mask_bit(mask, n - 1) {
            1nat
        } else {
            0nat
        }
    }
}

/// Number of clear bits among the first `n` bits of the mask.
pub open spec fn count_zeros(mask: Seq<u64>, n: nat) -> nat {
    (n - count_ones(mask, n)) as nat
}

/// A mask of `words` words with no bit set.
pub open spec fn is_empty_mask(mask: Seq<u64>, words: nat) -> bool {
    mask.len() == words && forall|i: int| 0 <= i < 64 * words ==> !#[trigger] mask_bit(mask, i)
}

/// Among more bits there are no fewer set bits.
pub proof fn lemma_count_ones_grow(mask: Seq<u64>, i: nat, n: nat)
    requires
        i <= n,
    ensures
        count_ones(mask, i) <= count_ones(mask, n),
    decreases n,
{
    if i < n {
        lemma_count_ones_grow(mask, i, (n - 1) as nat);
    }
}

proof fn lemma_word_set(w: u64, b: u64, c: u64)
    requires
        b < 64,
        c < 64,
    ensures
        word_bit(w | (1u64 << b), c) == (c == b || word_bit(w, c)),
        word_bit(w & !(1u64 << b), c) == (c != b && word_bit(w, c)),
        !word_bit(0u64, c),
{
    assert(((w | (1u64 << b)) >> c) & 1 == 1 <==> (c == b || (w >> c) & 1 == 1)) by (bit_vector)
        requires
            b < 64,
            c < 64,
    ;
    assert(((w & !(1u64 << b)) >> c) & 1 == 1 <==> (c != b && (w >> c) & 1 == 1)) by (bit_vector)
        requires
            b < 64,
            c < 64,
    ;
    assert((0u64 >> c) & 1 != 1) by (bit_vector);
}

/// Reads bit `i` of the mask.
pub fn test_bit(mask: &Vec<u64>, i: usize) -> (r: bool)
    requires
        i < 64 * mask.len(),
    ensures
        r == mask_bit(mask@, i as int),
{
    let w: u64 = mask[i / 64];
    let b: u64 = (i % 64) as u64;
    (w >> b) & 1 == 1
}

/// Sets bit `i` of the mask and leaves every other bit as it was.
pub fn set_bit(mask: &mut Vec<u64>, i: usize)
    requires
        i < 64 * old(mask).len(),
    ensures
        final(mask).len() == old(mask).len(),
        final(mask)@ == with_bit(old(mask)@, i as int),
        forall|j: int|
            0 <= j < 64 * old(mask).len() ==> (#[trigger] mask_bit(final(mask)@, j) == (j == i
                || mask_bit(old(mask)@, j))),
{
    let w: u64 = mask[i / 64];
    let b: u64 = (i % 64) as u64;
    let ghost before = mask@;
    mask.set(i / 64, w | (1u64 << b));
    proof {
        assert forall|j: int| 0 <= j < 64 * before.len() implies (#[trigger] mask_bit(mask@, j) == (
        j == i || mask_bit(before, j))) by {
            lemma_word_set(w, b, (j % 64) as u64);
        }
    }
}

/// Clears bit `i` of the mask and leaves every other bit as it was.
pub fn clear_bit(mask: &mut Vec<u64>, i: usize)
    requires
        i < 64 * old(mask).len(),
    ensures
        final(mask).len() == old(mask).len(),
        final(mask)@ == without_bit(old(mask)@, i as int),
        forall|j: int|
            0 <= j < 64 * old(mask).len() ==> (#[trigger] mask_bit(final(mask)@, j) == (j != i
                && mask_bit(old(mask)@, j))),
{
    let w: u64 = mask[i / 64];
    let b: u64 = (i % 64) as u64;
    let ghost before = mask@;
    mask.set(i / 64, w & !(1u64 << b));
    proof {
        assert forall|j: int| 0 <= j < 64 * before.len() implies (#[trigger] mask_bit(mask@, j) == (
        j != i && mask_bit(before, j))) by {
            lemma_word_set(w, b, (j % 64) as u64);
        }
    }
}

/// A mask of `words` words with no bit set.
pub fn empty_mask(words: usize) -> (mask: Vec<u64>)
    requires
        words <= 16777216,
    ensures
        is_empty_mask(mask@, words as nat),
        mask@ == zero_mask(words as nat),
{
    let mut mask: Vec<u64> = Vec::new();
    let mut i: usize = 0;
    while i < words
        invariant
            i <= words,
            mask@ == Seq::new(i as nat, |k: int| 0u64),
        decreases words - i,
    {
        mask.push(0u64);
        assert(mask@ =~= Seq::new((i + 1) as nat, |k: int| 0u64));
        i = i + 1;
    }
    proof {
        assert forall|j: int| 0 <= j < 64 * words implies !#[trigger] mask_bit(mask@, j) by {
            lemma_word_set(0u64, 0u64, (j % 64) as u64);
        }
    }
    mask
}

/// Counts the set bits among the first `n` bits of the mask.
pub fn count_ones_of(mask: &Vec<u64>, n: usize) -> (r: usize)
    requires
        n <= 64 * mask.len(),
    ensures
        r == count_ones(mask@, n as nat),
        r <= n,
{
    let mut r: usize = 0;
    let mut i: usize = 0;
    while i < n
        invariant
            i <= n <= 64 * mask.len(),
            r == count_ones(mask@, i as nat),
            r <= i,
        decreases n - i,
    {
        if test_bit(mask, i) {
            r = r + 1;
        }
        i = i + 1;
    }
    r
}

/// Setting a bit twice is setting it once, and so is clearing it; a bit
/// that is cleared in a mask without bits leaves the mask as it is.
pub proof fn lemma_bit_twice(mask: Seq<u64>, i: int)
    requires
        0 <= i < 64 * mask.len(),
    ensures
        with_bit(with_bit(mask, i), i) == with_bit(mask, i),
        without_bit(without_bit(mask, i), i) == without_bit(mask, i),
        without_bit(zero_mask(mask.len()), i) == zero_mask(mask.len()),
{
    let w = mask[i / 64];
    let b = (i % 64) as u64;
    assert((w | (1u64 << b)) | (1u64 << b) == w | (1u64 << b)) by (bit_vector);
    assert((w & !(1u64 << b)) & !(1u64 << b) == w & !(1u64 << b)) by (bit_vector);
    assert(0u64 & !(1u64 << b) == 0u64) by (bit_vector);
    assert(with_bit(with_bit(mask, i), i) =~= with_bit(mask, i));
    assert(without_bit(without_bit(mask, i), i) =~= without_bit(mask, i));
    assert(without_bit(zero_mask(mask.len()), i) =~= zero_mask(mask.len()));
}

} // verus!
