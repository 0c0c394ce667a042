//! Small integer helpers shared by the rest of the crate.

use vstd::prelude::*;
use vstd::arithmetic::power2::pow2;

verus! {

/// Unsigned machine word that stores a run of matrix bits.
pub type Word = u64;

/// Position of a row, a word or a bit.
pub type Index = usize;

/// Number of bits held by one [`Word`].
pub const WORD_SIZE: usize = 64;

/// Smallest number of blocks of size `y` that cover `x` items.
pub open spec fn spec_ceil_div(x: int, y: int) -> int {
    (x + y - 1) / y
}

/// Size of the last block when `x` items are cut into blocks of size `y`:
/// the remainder of the division, except that a remainder of zero counts
/// as a full block.
pub open spec fn spec_ceil_rem(x: int, y: int) -> int {
    x - (spec_ceil_div(x, y) - 1) * y
}

/// `e` is the exponent with `2^e <= x < 2^(e + 1)`.
pub open spec fn is_floor_log2(x: int, e: int) -> bool {
    0 <= e && pow2(e as nat) <= x < pow2((e + 1) as nat)
}

/// Quotient of `x` by `y`, rounded up.
pub fn ceil_div(x: Index, y: Index) -> (q: Index)
    requires
        y > 0,
    ensures
        q == spec_ceil_div(x as int, y as int),
        x <= q * y < x + y,
{
    proof {
        lemma_ceil_div(x as int, y as int);
    }
    if x % y != 0 {
        x / y + 1
    } else {
        x / y
    }
}

/// Remainder of `x` by `y`, taken in the range `1..=y`.
pub fn ceil_rem(x: Index, y: Index) -> (r: Index)
    requires
        y > 0,
    ensures
        r == spec_ceil_rem(x as int, y as int),
        1 <= r <= y,
        (x - r) % (y as int) == 0,
{
    proof {
        lemma_ceil_div(x as int, y as int);
        vstd::arithmetic::div_mod::lemma_fundamental_div_mod(x as int, y as int);
        let q = spec_ceil_div(x as int, y as int);
        assert((x - spec_ceil_rem(x as int, y as int)) % (y as int) == 0) by {
            assert(x - spec_ceil_rem(x as int, y as int) == (q - 1) * y);
            vstd::arithmetic::div_mod::lemma_mod_multiples_basic(q - 1, y as int);
        }
        if x % y != 0 {
            assert((q - 1) * y == (x / y) * y);
            assert((x / y) * y == y * (x / y)) by (nonlinear_arith);
        } else {
            assert((q - 1) * y == (x / y) * y - y) by (nonlinear_arith)
                requires q == x / y;
            assert((x / y) * y == y * (x / y)) by (nonlinear_arith);
        }
    }
    if x % y != 0 {
        x % y
    } else {
        y
    }
}

/// Floor of the base-2 logarithm of `x`.
pub fn log_2(x: usize) -> (e: usize)
    requires
        x > 0,
    ensures
        is_floor_log2(x as int, e as int),
        e < WORD_SIZE,
{
    let wide: u64 = x as u64;
    proof {
        lemma_leading_zeros_log2(wide);
    }
    let zeros: usize = wide.leading_zeros() as usize;
    WORD_SIZE - zeros - 1
}

/// A nonzero word with `z` leading zero bits lies between `2^(63 - z)`
/// and `2^(64 - z)`.
pub proof fn lemma_leading_zeros_log2(x: u64)
    requires
        x > 0,
    ensures
        0 <= vstd::std_specs::bits::u64_leading_zeros(x) <= 63,
        is_floor_log2(x as int, 63 - vstd::std_specs::bits::u64_leading_zeros(x)),
    decreases x,
{
    reveal(vstd::std_specs::bits::u64_leading_zeros);
    let half: u64 = x / 2;
    if half == 0 {
        assert(x == 1);
        assert(vstd::std_specs::bits::u64_leading_zeros(0) == 64);
        assert(vstd::std_specs::bits::u64_leading_zeros(x) == 63);
        vstd::arithmetic::power2::lemma2_to64();
    } else {
        lemma_leading_zeros_log2(half);
        let e = 63 - vstd::std_specs::bits::u64_leading_zeros(half);
        vstd::arithmetic::power2::lemma_pow2_unfold((e + 1) as nat);
        vstd::arithmetic::power2::lemma_pow2_unfold((e + 2) as nat);
        if e == 63 {
            vstd::arithmetic::power2::lemma2_to64_rest();
            assert(false);
        }
    }
}

/// Any two exponents that bracket the same number are equal.
pub proof fn lemma_floor_log2_unique(x: int, e1: int, e2: int)
    requires
        is_floor_log2(x, e1),
        is_floor_log2(x, e2),
    ensures
        e1 == e2,
{
    if e1 < e2 {
        vstd::arithmetic::power2::lemma_pow2_strictly_increases(e1 as nat, e2 as nat);
        if e1 + 1 < e2 {
            vstd::arithmetic::power2::lemma_pow2_strictly_increases((e1 + 1) as nat, e2 as nat);
        }
    } else if e2 < e1 {
        vstd::arithmetic::power2::lemma_pow2_strictly_increases(e2 as nat, e1 as nat);
        if e2 + 1 < e1 {
            vstd::arithmetic::power2::lemma_pow2_strictly_increases((e2 + 1) as nat, e1 as nat);
        }
    }
}

/// Relates the rounded-up quotient to the truncating one.
pub proof fn lemma_ceil_div(x: int, y: int)
    requires
        x >= 0,
        y > 0,
    ensures
        spec_ceil_div(x, y) == x / y + if x % y != 0 { 1int } else { 0int },
        x <= spec_ceil_div(x, y) * y < x + y,
        x % y != 0 ==> x / y < x,
{
    vstd::arithmetic::div_mod::lemma_fundamental_div_mod(x, y);
    vstd::arithmetic::div_mod::lemma_fundamental_div_mod(x + y - 1, y);
    vstd::arithmetic::div_mod::lemma_mod_bound(x, y);
    vstd::arithmetic::div_mod::lemma_mod_bound(x + y - 1, y);
    let q = x / y;
    let r = x % y;
    let q2 = (x + y - 1) / y;
    let r2 = (x + y - 1) % y;
    assert(y * q + r == x);
    assert(y * q2 + r2 == x + y - 1);
    assert(y * (q2 - q) == y * q2 - y * q) by (nonlinear_arith);
    if r != 0 {
        // y * (q2 - q) == y - 1 + r - r2, which lies strictly between 0 and 2 * y
        assert(q2 - q == 1) by (nonlinear_arith)
            requires y * (q2 - q) == y - 1 + r - r2, 0 < r < y, 0 <= r2 < y, y > 0;
        assert(q < x) by (nonlinear_arith)
            requires y * q + r == x, r > 0, y > 0, q >= 0 || x >= 0, x >= 0;
    } else {
        assert(q2 - q == 0) by (nonlinear_arith)
            requires y * (q2 - q) == y - 1 - r2, 0 <= r2 < y, y > 0;
    }
    assert(q2 * y == y * q2) by (nonlinear_arith);
}

} // verus!
