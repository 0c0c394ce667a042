//! Dot products of rows of words, over the integers and over the
//! two-element field, and the sum of two rows.

use vstd::prelude::*;
use crate::util::{Index, Word};
use crate::word::{lemma_xor_bit, lemma_zero_word, word_bit};

verus! {

/// Sum of the products `a[i] * b[i]` over the first `k` indices.
pub open spec fn dot_sum(a: Seq<u64>, b: Seq<u64>, k: nat) -> nat
    decreases k,
{
    if k == 0 {
        0
    } else {
        dot_sum(a, b, (k - 1) as nat) + (a[k - 1] * b[k - 1]) as nat
    }
}

/// Number of bits set among the lowest `k` bits of `x`.
pub open spec fn ones_below(x: u64, k: nat) -> nat
    decreases k,
{
    if k == 0 {
        0
    } else {
        ones_below(x, (k - 1) as nat) + if word_bit(x, k - 1) {
            1nat
        } else {
            0nat
        }
    }
}

/// Number of bits set in `x`.
pub open spec fn ones(x: u64) -> nat {
    ones_below(x, 64)
}

/// Number of bit positions, in the words with indices from `lo` up to,
/// not including, `hi`, at which both rows have a bit set.
pub open spec fn common_ones(a: Seq<u64>, b: Seq<u64>, lo: int, hi: int) -> nat
    decreases hi - lo,
{
    if hi <= lo {
        0
    } else {
        common_ones(a, b, lo, hi - 1) + ones(a[hi - 1] & b[hi - 1])
    }
}

/// Number of bits set in `x`.
fn count_ones(x: Word) -> (count: u32)
    ensures
        count == ones(x),
{
    let mut count: u32 = 0;
    let mut t: u32 = 0;
    while t < 64
        invariant
            t <= 64,
            count == ones_below(x, t as nat),
            count <= t,
        decreases 64 - t,
    {
        if (x >> t) & 1 == 1 {
            count += 1;
        }
        t += 1;
    }
    count
}

/// A partial sum of products is at most the whole sum.
pub proof fn lemma_dot_sum_increases(a: Seq<u64>, b: Seq<u64>, k: nat, n: nat)
    requires
        k <= n,
    ensures
        dot_sum(a, b, k) <= dot_sum(a, b, n),
    decreases n,
{
    if k < n {
        lemma_dot_sum_increases(a, b, k, (n - 1) as nat);
    }
}

/// Adding two words bit by bit changes the number of set bits by an even
/// amount.
pub proof fn lemma_ones_xor(x: u64, y: u64, k: nat)
    requires
        k <= 64,
    ensures
        ones_below(x ^ y, k) % 2 == (ones_below(x, k) + ones_below(y, k)) % 2,
    decreases k,
{
    if k > 0 {
        lemma_ones_xor(x, y, (k - 1) as nat);
        lemma_xor_bit(x, y, k - 1);
    }
}

/// The zero word has no bit set.
pub proof fn lemma_ones_zero(k: nat)
    requires
        k <= 64,
    ensures
        ones_below(0, k) == 0,
    decreases k,
{
    if k > 0 {
        lemma_ones_zero((k - 1) as nat);
        lemma_zero_word(k - 1);
    }
}

/// Dot product of two rows of equal length over the integers.
pub fn dot(a: &[Word], b: &[Word]) -> (product: Word)
    requires
        a@.len() == b@.len(),
        dot_sum(a@, b@, a@.len()) <= u64::MAX,
    ensures
        product == dot_sum(a@, b@, a@.len()),
{
    let mut product: Word = 0;
    let mut i: Index = 0;
    while i < a.len()
        invariant
            i <= a@.len() == b@.len(),
            dot_sum(a@, b@, a@.len()) <= u64::MAX,
            product == dot_sum(a@, b@, i as nat),
        decreases a@.len() - i,
    {
        proof {
            lemma_dot_sum_increases(a@, b@, (i + 1) as nat, a@.len());
            assert(dot_sum(a@, b@, (i + 1) as nat) == dot_sum(a@, b@, i as nat) + (a@[i as int] * b@[i as int]) as nat);
            assert(a@[i as int] * b@[i as int] >= 0) by (nonlinear_arith)
                requires
                    a@[i as int] >= 0,
                    b@[i as int] >= 0,
            ;
        }
        product += a[i] * b[i];
        i += 1;
    }
    product
}

/// Dot product of two rows of equal length over the two-element field:
/// 1 when the rows have a bit in common at an odd number of positions,
/// else 0.
pub fn dot_gf2(a: &[Word], b: &[Word]) -> (product: u32)
    requires
        a@.len() == b@.len(),
    ensures
        product == common_ones(a@, b@, 0, a@.len() as int) % 2,
{
    trunc_dot_gf2(a, b, 0, a.len())
}

/// Dot product over the two-element field of the parts of two rows of
/// equal length that lie in the words with indices from `i0` up to, not
/// including, `i1`.
pub fn trunc_dot_gf2(a: &[Word], b: &[Word], i0: Index, i1: Index) -> (product: u32)
    requires
        a@.len() == b@.len(),
        i0 < i1 ==> i1 <= a@.len(),
    ensures
        product == common_ones(a@, b@, i0 as int, i1 as int) % 2,
{
    let mut folded: Word = 0;
    let mut i: Index = i0;
    proof {
        lemma_ones_zero(64);
    }
    while i < i1
        invariant
            i0 <= i,
            i <= i1 || i == i0,
            i < i1 ==> i1 <= a@.len(),
            a@.len() == b@.len(),
            ones(folded) % 2 == common_ones(a@, b@, i0 as int, i as int) % 2,
        decreases i1 - i,
    {
        proof {
            lemma_ones_xor(folded, a@[i as int] & b@[i as int], 64);
        }
        folded ^= a[i] & b[i];
        i += 1;
    }
    proof {
        if i0 >= i1 {
            assert(common_ones(a@, b@, i0 as int, i1 as int) == 0);
        }
    }
    count_ones(folded) % 2
}

/// Writes `b XOR c` into `a`, word by word, at the indices from `i0` up
/// to, not including, `i1`. The other words of `a` stay.
pub fn add_rows(a: &mut [Word], b: &[Word], c: &[Word], i0: Index, i1: Index)
    requires
        i0 < i1 ==> i1 <= old(a)@.len() && i1 <= b@.len() && i1 <= c@.len(),
    ensures
        final(a)@ == Seq::new(old(a)@.len(), |i: int| if i0 <= i < i1 { b@[i] ^ c@[i] } else { old(a)@[i] }),
{
    let mut i: Index = i0;
    while i < i1
        invariant
            i0 <= i,
            i <= i1 || i == i0,
            i < i1 ==> i1 <= a@.len() && i1 <= b@.len() && i1 <= c@.len(),
            a@.len() == old(a)@.len(),
            forall|k: int|
                0 <= k < a@.len() ==> a@[k] == if i0 <= k < i { b@[k] ^ c@[k] } else { old(a)@[k] },
        decreases i1 - i,
    {
        a[i] = b[i] ^ c[i];
        i += 1;
    }
    assert(a@ =~= Seq::new(old(a)@.len(), |i: int| if i0 <= i < i1 { b@[i] ^ c@[i] } else { old(a)@[i] }));
}

} // verus!
