//! Element widths: how many bits a value or a count needs.

use vstd::arithmetic::power2::*;
use vstd::prelude::*;

verus! {

/// The least `w` with `2^w >= x` (and `0` for `x = 0`).
pub open spec fn ceil_log2(x: nat) -> nat
    decreases x,
{
    if x <= 1 {
        0
    } else {
        1 + ceil_log2((x + 1) / 2)
    }
}

/// `ceil_log2(x)` bits are enough to count up to `x`, and one bit fewer
/// is not.
pub proof fn lemma_ceil_log2_is_least(x: nat)
    ensures
        x <= pow2(ceil_log2(x)),
        x > 1 ==> pow2((ceil_log2(x) - 1) as nat) < x,
    decreases x,
{
    lemma2_to64();
    if x > 1 {
        let h = (x + 1) / 2;
        lemma_ceil_log2_is_least(h);
        lemma_pow2_unfold(ceil_log2(x));
        if h > 1 {
            lemma_pow2_unfold(ceil_log2(h));
        }
    }
}

/// Whatever fits below `2^k` needs at most `k` bits.
pub proof fn lemma_ceil_log2_at_most(x: nat, k: nat)
    requires
        x <= pow2(k),
    ensures
        ceil_log2(x) <= k,
    decreases x,
{
    lemma2_to64();
    if x > 1 {
        if k == 0 {
            assert(false);
        } else {
            lemma_pow2_unfold(k);
            lemma_ceil_log2_at_most((x + 1) / 2, (k - 1) as nat);
        }
    }
}

/// A machine word's worth of bits is enough for every `usize`.
pub proof fn lemma_ceil_log2_word(x: usize)
    ensures
        ceil_log2(x as nat) <= usize::BITS,
{
    vstd::layout::unsigned_int_max_values();
    lemma_ceil_log2_at_most(x as nat, usize::BITS as nat);
}

/// One bit more than the largest index of a storable length needs is
/// still no more than a machine word.
pub proof fn lemma_index_width(len: usize)
    requires
        1 <= len <= isize::MAX,
    ensures
        ceil_log2((len - 1) as nat) + 1 <= usize::BITS,
        (usize::MAX as nat) == pow2(usize::BITS as nat) - 1,
        len < pow2(usize::BITS as nat) - 1,
{
    vstd::layout::unsigned_int_max_values();
    vstd::layout::signed_int_min_max_values();
    lemma_ceil_log2_at_most((len - 1) as nat, (usize::BITS - 1) as nat);
}

/// Computes `ceil_log2`.
pub fn ceil_log2_of(x: usize) -> (w: usize)
    ensures
        w == ceil_log2(x as nat),
        w <= usize::BITS,
{
    let mut w: usize = 0;
    let mut y: usize = x;
    proof {
        lemma_ceil_log2_word(x);
    }
    while y > 1
        invariant
            ceil_log2(x as nat) == w + ceil_log2(y as nat),
            ceil_log2(x as nat) <= usize::BITS,
        decreases y,
    {
        y = y / 2 + y % 2;
        w = w + 1;
    }
    w
}

/// The largest value of `width` bits, `2^width - 1`.
pub fn low_mask(width: usize) -> (m: usize)
    requires
        width <= usize::BITS,
    ensures
        m as nat == pow2(width as nat) - 1,
{
    let mut m: usize = 0;
    let mut i: usize = 0;
    proof {
        lemma2_to64();
        vstd::layout::unsigned_int_max_values();
    }
    while i < width
        invariant
            i <= width <= usize::BITS,
            m as nat == pow2(i as nat) - 1,
            (usize::MAX as nat) == pow2(usize::BITS as nat) - 1,
        decreases width - i,
    {
        proof {
            lemma_pow2_unfold((i + 1) as nat);
            if i + 1 < usize::BITS {
                lemma_pow2_strictly_increases((i + 1) as nat, usize::BITS as nat);
            }
        }
        m = 2 * m + 1;
        i = i + 1;
    }
    m
}

/// A value below `2^a` is below `2^b` for every `b >= a`.
pub proof fn lemma_pow2_monotone(a: nat, b: nat)
    requires
        a <= b,
    ensures
        pow2(a) <= pow2(b),
{
    if a < b {
        lemma_pow2_strictly_increases(a, b);
    }
}

} // verus!
