//! Symbol counts and the bucket layout they induce on a sorted work array.
//!
//! The bucket of a symbol `c` covers the slots `bucket_start(c) ..
//! bucket_end(c)`; within it the positions of type L come first, up to
//! `l_end(c)`, and those of type S after them.

use crate::packed::{ones_before, rank1_of};
use crate::text::{is_l, is_lms, is_text, lemma_text_symbols};
use vstd::prelude::*;

verus! {

/// A way of selecting positions of a text relative to a symbol `c`.
pub enum Class {
    /// The symbol is smaller than `c`.
    Below,
    /// The symbol is `c`.
    Equal,
    /// The symbol is `c` and the position is of type L.
    EqualL,
    /// The symbol is `c` and the position is of type S.
    EqualS,
    /// The position is LMS, whatever `c`.
    Lms,
}

/// Whether position `i` of `s` is selected by `class` for the symbol `c`.
pub open spec fn in_class(s: Seq<usize>, class: Class, c: int, i: int) -> bool {
    match class {
        Class::Below => s[i] < c,
        Class::Equal => s[i] == c,
        Class::EqualL => s[i] == c && is_l(s, i),
        Class::EqualS => s[i] == c && !is_l(s, i),
        Class::Lms => is_lms(s, i),
    }
}

/// The number of selected positions below `upto`.
pub open spec fn count(s: Seq<usize>, class: Class, c: int, upto: int) -> int
    decreases upto,
{
    if upto <= 0 {
        0
    } else {
        count(s, class, c, upto - 1) + if in_class(s, class, c, upto - 1) {
            1int
        } else {
            0int
        }
    }
}

/// How often `c` occurs in `s`.
pub open spec fn occurrences(s: Seq<usize>, c: int) -> int {
    count(s, Class::Equal, c, s.len() as int)
}

/// First slot of the bucket of `c`: the number of symbols smaller than `c`.
pub open spec fn bucket_start(s: Seq<usize>, c: int) -> int {
    count(s, Class::Below, c, s.len() as int)
}

/// One past the last slot of the bucket of `c`.
pub open spec fn bucket_end(s: Seq<usize>, c: int) -> int {
    bucket_start(s, c + 1)
}

/// Where the type-L part of the bucket of `c` ends and its type-S part
/// begins.
pub open spec fn l_end(s: Seq<usize>, c: int) -> int {
    bucket_start(s, c) + count(s, Class::EqualL, c, s.len() as int)
}

/// Which symbols below `sigma` occur in `s`.
pub open spec fn present(s: Seq<usize>, sigma: int) -> Seq<bool> {
    Seq::new(sigma as nat, |c: int| occurrences(s, c) > 0)
}

/// The bucket starts of all symbols below `sigma`.
pub open spec fn bucket_starts(s: Seq<usize>, sigma: int) -> Seq<int> {
    Seq::new(sigma as nat, |c: int| bucket_start(s, c))
}

/// The bucket ends of all symbols below `sigma`.
pub open spec fn bucket_ends(s: Seq<usize>, sigma: int) -> Seq<int> {
    Seq::new(sigma as nat, |c: int| bucket_end(s, c))
}

/// `packed` holds the entries of `dense` for the symbols marked in
/// `marks`, and only those: the entry of a marked `c` sits at index
/// `rank1(marks, c) - 1`.
pub open spec fn is_sparse(marks: Seq<bool>, dense: Seq<int>, packed: Seq<usize>) -> bool {
    &&& dense.len() == marks.len()
    &&& packed.len() == ones_before(marks, marks.len() as int)
    &&& forall|c: int|
        0 <= c < marks.len() && marks[c] ==> #[trigger] dense[c] == packed[rank1_of(marks, c) - 1]
}

/// A count is between zero and the number of positions counted over.
pub proof fn lemma_count_range(s: Seq<usize>, class: Class, c: int, upto: int)
    ensures
        0 <= count(s, class, c, upto),
        upto >= 0 ==> count(s, class, c, upto) <= upto,
    decreases upto,
{
    if upto > 0 {
        lemma_count_range(s, class, c, upto - 1);
    }
}

/// Counting over more positions does not give less.
pub proof fn lemma_count_grows(s: Seq<usize>, class: Class, c: int, a: int, b: int)
    requires
        a <= b,
    ensures
        count(s, class, c, a) <= count(s, class, c, b),
    decreases b - a,
{
    if a < b {
        lemma_count_grows(s, class, c, a, b - 1);
        lemma_count_range(s, class, c, b - 1);
    }
}

/// A selected position below `upto` makes the count positive.
pub proof fn lemma_count_positive(s: Seq<usize>, class: Class, c: int, upto: int, i: int)
    requires
        0 <= i < upto,
        in_class(s, class, c, i),
    ensures
        count(s, class, c, upto) > 0,
{
    lemma_count_range(s, class, c, i);
    lemma_count_grows(s, class, c, i + 1, upto);
}

/// The symbols below `c + 1` are those below `c` and `c` itself; the
/// occurrences of `c` are of type L or of type S.
pub proof fn lemma_count_split(s: Seq<usize>, c: int, upto: int)
    ensures
        count(s, Class::Below, c + 1, upto) == count(s, Class::Below, c, upto) + count(
            s,
            Class::Equal,
            c,
            upto,
        ),
        count(s, Class::Equal, c, upto) == count(s, Class::EqualL, c, upto) + count(
            s,
            Class::EqualS,
            c,
            upto,
        ),
    decreases upto,
{
    if upto > 0 {
        lemma_count_split(s, c, upto - 1);
    }
}

/// The bucket of `c` is laid out as start, type-L part, type-S part, end.
pub proof fn lemma_bucket_layout(s: Seq<usize>, c: int)
    ensures
        0 <= bucket_start(s, c) <= l_end(s, c) <= bucket_end(s, c) <= s.len(),
        bucket_end(s, c) == bucket_start(s, c) + occurrences(s, c),
        bucket_end(s, c) == l_end(s, c) + count(s, Class::EqualS, c, s.len() as int),
{
    let n = s.len() as int;
    lemma_count_split(s, c, n);
    lemma_count_range(s, Class::Below, c, n);
    lemma_count_range(s, Class::Below, c + 1, n);
    lemma_count_range(s, Class::EqualL, c, n);
    lemma_count_range(s, Class::EqualS, c, n);
}

/// A larger symbol has no fewer symbols below it.
proof fn lemma_below_monotone(s: Seq<usize>, c1: int, c2: int, upto: int)
    requires
        c1 <= c2,
    ensures
        count(s, Class::Below, c1, upto) <= count(s, Class::Below, c2, upto),
    decreases upto,
{
    if upto > 0 {
        lemma_below_monotone(s, c1, c2, upto - 1);
    }
}

/// Buckets of different symbols do not overlap: the smaller symbol's
/// bucket ends before the larger one's starts.
pub proof fn lemma_buckets_ordered(s: Seq<usize>, c1: int, c2: int)
    requires
        c1 < c2,
    ensures
        bucket_end(s, c1) <= bucket_start(s, c2),
{
    lemma_below_monotone(s, c1 + 1, c2, s.len() as int);
}

/// No symbol lies below zero, and every symbol below the alphabet bound.
proof fn lemma_below_extremes(s: Seq<usize>, sigma: int, upto: int)
    requires
        0 <= upto <= s.len(),
        forall|i: int| 0 <= i < s.len() ==> #[trigger] s[i] < sigma,
    ensures
        count(s, Class::Below, 0, upto) == 0,
        count(s, Class::Below, sigma, upto) == upto,
    decreases upto,
{
    if upto > 0 {
        lemma_below_extremes(s, sigma, upto - 1);
    }
}

/// The buckets of the symbols below `sigma` tile the work array.
pub proof fn lemma_buckets_cover(s: Seq<usize>, sigma: int)
    requires
        forall|i: int| 0 <= i < s.len() ==> #[trigger] s[i] < sigma,
    ensures
        bucket_start(s, 0) == 0,
        bucket_start(s, sigma) == s.len(),
{
    lemma_below_extremes(s, sigma, s.len() as int);
}

/// Every slot lies in the bucket of some symbol below `sigma`.
pub proof fn lemma_slot_bucket(s: Seq<usize>, sigma: int, slot: int) -> (c: int)
    requires
        forall|i: int| 0 <= i < s.len() ==> #[trigger] s[i] < sigma,
        0 <= slot < s.len(),
    ensures
        0 <= c < sigma,
        bucket_start(s, c) <= slot < bucket_end(s, c),
{
    lemma_buckets_cover(s, sigma);
    lemma_slot_bucket_from(s, sigma, slot, 0)
}

/// Every slot from the bucket of `from` on lies in the bucket of some
/// symbol from `from` on.
proof fn lemma_slot_bucket_from(s: Seq<usize>, sigma: int, slot: int, from: int) -> (c: int)
    requires
        0 <= from,
        bucket_start(s, from) <= slot < bucket_start(s, sigma),
    ensures
        from <= c < sigma,
        bucket_start(s, c) <= slot < bucket_end(s, c),
    decreases sigma - from,
{
    if from >= sigma {
        lemma_below_monotone(s, sigma, from, s.len() as int);
        from
    } else if slot < bucket_end(s, from) {
        from
    } else {
        lemma_slot_bucket_from(s, sigma, slot, from + 1)
    }
}

/// In a text the sentinel has the first bucket to itself.
pub proof fn lemma_sentinel_bucket(s: Seq<usize>, sigma: int)
    requires
        is_text(s, sigma),
    ensures
        bucket_start(s, 0) == 0,
        l_end(s, 0) == 0,
        bucket_end(s, 0) == 1,
{
    let n = s.len() as int;
    lemma_text_symbols(s, sigma);
    lemma_zero_counts(s, sigma, n - 1);
    lemma_below_extremes(s, sigma, n);
    lemma_count_split(s, 0, n);
    assert(!is_l(s, n - 1));
}

/// Before its last position a text holds no zero.
proof fn lemma_zero_counts(s: Seq<usize>, sigma: int, upto: int)
    requires
        is_text(s, sigma),
        0 <= upto <= s.len() - 1,
    ensures
        count(s, Class::Equal, 0, upto) == 0,
        count(s, Class::EqualL, 0, upto) == 0,
    decreases upto,
{
    if upto > 0 {
        lemma_zero_counts(s, sigma, upto - 1);
    }
}

/// Distinct selected positions are no more than the count of the
/// selection.
pub proof fn lemma_distinct_members(s: Seq<usize>, class: Class, c: int, q: Seq<usize>, upto: int)
    requires
        0 <= upto <= s.len(),
        q.no_duplicates(),
        forall|j: int| 0 <= j < q.len() ==> (#[trigger] q[j]) < upto && in_class(s, class, c, q[j] as int),
    ensures
        q.len() <= count(s, class, c, upto),
    decreases upto,
{
    if upto == 0 {
        if q.len() > 0 {
            assert(q[0] < 0);
        }
    } else if exists|j: int| 0 <= j < q.len() && #[trigger] q[j] == upto - 1 {
        let j = choose|j: int| 0 <= j < q.len() && #[trigger] q[j] == upto - 1;
        let q2 = q.remove(j);
        assert forall|i: int| 0 <= i < q2.len() implies (#[trigger] q2[i]) < upto - 1 && in_class(
            s,
            class,
            c,
            q2[i] as int,
        ) by {
            if i < j {
                assert(q2[i] == q[i]);
            } else {
                assert(q2[i] == q[i + 1]);
            }
        }
        assert forall|a: int, b: int| 0 <= a < q2.len() && 0 <= b < q2.len() && a != b implies q2[a]
            != q2[b] by {
            let a1 = if a < j { a } else { a + 1 };
            let b1 = if b < j { b } else { b + 1 };
            assert(q2[a] == q[a1] && q2[b] == q[b1]);
        }
        lemma_distinct_members(s, class, c, q2, upto - 1);
    } else {
        lemma_distinct_members(s, class, c, q, upto - 1);
    }
}

/// A sequence that holds every selected position is at least as long as
/// the count of the selection.
pub proof fn lemma_members_covered(s: Seq<usize>, class: Class, c: int, q: Seq<usize>, upto: int)
    requires
        0 <= upto <= s.len(),
        forall|p: int|
            0 <= p < upto && #[trigger] in_class(s, class, c, p) ==> exists|j: int|
                0 <= j < q.len() && #[trigger] q[j] == p,
    ensures
        count(s, class, c, upto) <= q.len(),
    decreases upto,
{
    if upto > 0 {
        if in_class(s, class, c, upto - 1) {
            let j = choose|j: int| 0 <= j < q.len() && #[trigger] q[j] == upto - 1;
            let q2 = q.remove(j);
            assert forall|p: int| 0 <= p < upto - 1 && #[trigger] in_class(s, class, c, p) implies exists|
                j2: int,
            |
                0 <= j2 < q2.len() && #[trigger] q2[j2] == p by {
                let j1 = choose|j1: int| 0 <= j1 < q.len() && #[trigger] q[j1] == p;
                if j1 < j {
                    assert(q2[j1] == q[j1]);
                } else {
                    assert(q2[j1 - 1] == q[j1]);
                }
            }
            lemma_members_covered(s, class, c, q2, upto - 1);
        } else {
            lemma_members_covered(s, class, c, q, upto - 1);
        }
    }
}

/// Slots that hold every selected position are at least as many as the
/// count of the selection.
pub proof fn lemma_slots_cover(
    s: Seq<usize>,
    class: Class,
    c: int,
    w: Seq<usize>,
    lo: int,
    hi: int,
)
    requires
        0 <= lo <= hi <= w.len(),
        forall|p: int|
            0 <= p < s.len() && #[trigger] in_class(s, class, c, p) ==> exists|i: int|
                lo <= i < hi && #[trigger] w[i] == p,
    ensures
        count(s, class, c, s.len() as int) <= hi - lo,
{
    let q = w.subrange(lo, hi);
    assert forall|p: int| 0 <= p < s.len() && #[trigger] in_class(s, class, c, p) implies exists|
        j: int,
    |
        0 <= j < q.len() && #[trigger] q[j] == p by {
        let i = choose|i: int| lo <= i < hi && #[trigger] w[i] == p;
        assert(q[i - lo] == w[i]);
    }
    lemma_members_covered(s, class, c, q, s.len() as int);
}

/// No more bits are set than there are.
pub proof fn lemma_ones_range(bits: Seq<bool>, k: int)
    ensures
        k >= 0 ==> ones_before(bits, k) <= k,
    decreases k,
{
    if k > 0 {
        lemma_ones_range(bits, k - 1);
    }
}

/// Counting set bits over more bits does not give less.
pub proof fn lemma_ones_grow(bits: Seq<bool>, a: int, b: int)
    requires
        a <= b,
    ensures
        ones_before(bits, a) <= ones_before(bits, b),
    decreases b - a,
{
    if a < b {
        lemma_ones_grow(bits, a, b - 1);
    }
}

/// The rank of a set bit is a valid, one-based index among the set bits.
pub proof fn lemma_rank_of_set_bit(bits: Seq<bool>, c: int)
    requires
        0 <= c < bits.len(),
        bits[c],
    ensures
        1 <= rank1_of(bits, c) <= ones_before(bits, bits.len() as int),
        rank1_of(bits, c) <= c + 1,
{
    lemma_ones_grow(bits, c + 1, bits.len() as int);
    lemma_ones_range(bits, c + 1);
}

/// Different set bits have different ranks.
pub proof fn lemma_rank_injective(bits: Seq<bool>, c1: int, c2: int)
    requires
        0 <= c1 < bits.len(),
        0 <= c2 < bits.len(),
        bits[c1],
        bits[c2],
        c1 != c2,
    ensures
        rank1_of(bits, c1) != rank1_of(bits, c2),
{
    if c1 < c2 {
        lemma_ones_grow(bits, c1 + 1, c2);
    } else {
        lemma_ones_grow(bits, c2 + 1, c1);
    }
}

/// Updating the dense entry of a marked symbol and its packed slot
/// together keeps the packed form in step.
pub proof fn lemma_sparse_update(
    marks: Seq<bool>,
    dense: Seq<int>,
    packed: Seq<usize>,
    c: int,
    value: usize,
)
    requires
        is_sparse(marks, dense, packed),
        0 <= c < marks.len(),
        marks[c],
    ensures
        is_sparse(
            marks,
            dense.update(c, value as int),
            packed.update(rank1_of(marks, c) - 1, value),
        ),
{
    let d2 = dense.update(c, value as int);
    let p2 = packed.update(rank1_of(marks, c) - 1, value);
    lemma_rank_of_set_bit(marks, c);
    assert forall|c2: int| 0 <= c2 < marks.len() && marks[c2] implies #[trigger] d2[c2] == p2[rank1_of(
        marks,
        c2,
    ) - 1] by {
        lemma_rank_of_set_bit(marks, c2);
        if c2 != c {
            lemma_rank_injective(marks, c, c2);
            assert(dense[c2] == packed[rank1_of(marks, c2) - 1]);
        }
    }
}

} // verus!
