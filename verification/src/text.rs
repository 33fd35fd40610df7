//! The text model: sentinel-terminated symbol sequences, L/S types and
//! LMS positions.

use vstd::prelude::*;

verus! {

/// `s` is a text over the alphabet `0..sigma`: it ends with the sentinel
/// `0`, and every other symbol is non-zero and below `sigma`. Its
/// positions are machine indices.
pub open spec fn is_text(s: Seq<usize>, sigma: int) -> bool {
    &&& 0 < sigma
    &&& 1 <= s.len() <= usize::MAX
    &&& s[s.len() - 1] == 0
    &&& forall|i: int| 0 <= i < s.len() - 1 ==> 0 < #[trigger] s[i] < sigma
}

/// Position `i` of `s` is of type L: its suffix is larger than the next
/// one. The last position is of type S.
pub open spec fn is_l(s: Seq<usize>, i: int) -> bool
    decreases s.len() - i,
{
    if i < 0 || i >= s.len() - 1 {
        false
    } else if s[i] > s[i + 1] {
        true
    } else if s[i] < s[i + 1] {
        false
    } else {
        is_l(s, i + 1)
    }
}

/// The L/S map of `s`: `true` marks type L.
pub open spec fn ls_types(s: Seq<usize>) -> Seq<bool> {
    Seq::new(s.len(), |i: int| is_l(s, i))
}

/// `t` obeys the comparison rule that defines the L/S map of `s`.
pub open spec fn is_ls_map(s: Seq<usize>, t: Seq<bool>) -> bool {
    &&& t.len() == s.len()
    &&& s.len() > 0 ==> !t[s.len() - 1]
    &&& forall|i: int|
        0 <= i < s.len() - 1 ==> #[trigger] t[i] == if s[i] > s[i + 1] {
            true
        } else if s[i] < s[i + 1] {
            false
        } else {
            t[i + 1]
        }
}

/// Position `i` is LMS in the L/S map `t`: of type S, after one of type L.
pub open spec fn lms_in(t: Seq<bool>, i: int) -> bool {
    0 < i < t.len() && t[i - 1] && !t[i]
}

/// Position `i` of `s` is LMS.
pub open spec fn is_lms(s: Seq<usize>, i: int) -> bool {
    lms_in(ls_types(s), i)
}

/// The LMS positions of `t` below `k`, in increasing order.
pub open spec fn lms_below(t: Seq<bool>, k: int) -> Seq<usize>
    decreases k,
{
    if k <= 0 {
        Seq::empty()
    } else if lms_in(t, k - 1) {
        lms_below(t, k - 1).push((k - 1) as usize)
    } else {
        lms_below(t, k - 1)
    }
}

/// All LMS positions of `s`, in increasing order.
pub open spec fn lms_positions(s: Seq<usize>) -> Seq<usize> {
    lms_below(ls_types(s), s.len() as int)
}

/// The first LMS position after `i`, or the last position of the map when
/// there is none.
pub open spec fn next_lms(t: Seq<bool>, i: int) -> int
    decreases t.len() - i,
{
    if i + 1 >= t.len() {
        t.len() - 1
    } else if lms_in(t, i + 1) {
        i + 1
    } else {
        next_lms(t, i + 1)
    }
}

/// `lms` lists the LMS positions of the map `t`, each once, in increasing
/// order.
pub open spec fn is_lms_list(t: Seq<bool>, lms: Seq<usize>) -> bool {
    &&& forall|j: int| 0 <= j < lms.len() ==> lms_in(t, #[trigger] lms[j] as int)
    &&& forall|i: int, j: int| 0 <= i < j < lms.len() ==> #[trigger] lms[i] < #[trigger] lms[j]
    &&& forall|q: int|
        #[trigger] lms_in(t, q) ==> exists|j: int| 0 <= j < lms.len() && #[trigger] lms[j] == q
}

/// The LMS positions below `k`, as listed, are exactly those.
pub proof fn lemma_lms_below(t: Seq<bool>, k: int)
    requires
        k <= t.len() <= usize::MAX,
    ensures
        forall|j: int|
            0 <= j < lms_below(t, k).len() ==> (#[trigger] lms_below(t, k)[j]) < k && lms_in(
                t,
                lms_below(t, k)[j] as int,
            ),
        forall|i: int, j: int|
            0 <= i < j < lms_below(t, k).len() ==> #[trigger] lms_below(t, k)[i]
                < #[trigger] lms_below(t, k)[j],
        forall|q: int|
            q < k && #[trigger] lms_in(t, q) ==> exists|j: int|
                0 <= j < lms_below(t, k).len() && #[trigger] lms_below(t, k)[j] == q,
    decreases k,
{
    if k > 0 {
        lemma_lms_below(t, k - 1);
        let prev = lms_below(t, k - 1);
        let cur = lms_below(t, k);
        if lms_in(t, k - 1) {
            assert(cur == prev.push((k - 1) as usize));
            assert forall|q: int| q < k && #[trigger] lms_in(t, q) implies exists|j: int|
                0 <= j < cur.len() && #[trigger] cur[j] == q by {
                if q == k - 1 {
                    assert(cur[prev.len() as int] == q);
                } else {
                    let j = choose|j: int| 0 <= j < prev.len() && #[trigger] prev[j] == q;
                    assert(cur[j] == q);
                }
            }
        }
    }
}

/// An increasing list of positions is no longer than what it indexes.
pub proof fn lemma_lms_list_len(t: Seq<bool>, lms: Seq<usize>)
    requires
        is_lms_list(t, lms),
    ensures
        lms.len() <= t.len(),
{
    if lms.len() > 0 {
        lemma_increasing_from(lms, lms.len() - 1);
        assert(lms_in(t, lms[lms.len() - 1] as int));
    }
}

/// The `j`-th of increasing positions is at least `j`.
proof fn lemma_increasing_from(lms: Seq<usize>, j: int)
    requires
        0 <= j < lms.len(),
        forall|i: int, j: int| 0 <= i < j < lms.len() ==> #[trigger] lms[i] < #[trigger] lms[j],
    ensures
        lms[j] >= j,
    decreases j,
{
    if j > 0 {
        lemma_increasing_from(lms, j - 1);
    }
}

/// `lms_positions` lists the LMS positions of a text.
pub proof fn lemma_lms_positions(s: Seq<usize>)
    requires
        s.len() <= usize::MAX,
    ensures
        is_lms_list(ls_types(s), lms_positions(s)),
{
    lemma_lms_below(ls_types(s), s.len() as int);
}

/// `next_lms` finds the first LMS position after `i`, where there is one.
pub proof fn lemma_next_lms_found(t: Seq<bool>, i: int, k: int)
    requires
        0 <= i < k,
        lms_in(t, k),
        forall|j: int| i < j < k ==> !lms_in(t, j),
    ensures
        next_lms(t, i) == k,
    decreases k - i,
{
    if i + 1 < k {
        lemma_next_lms_found(t, i + 1, k);
    }
}

/// `next_lms` is the last position where no LMS position follows `i`.
pub proof fn lemma_next_lms_none(t: Seq<bool>, i: int)
    requires
        0 <= i,
        forall|j: int| i < j ==> !lms_in(t, j),
    ensures
        next_lms(t, i) == t.len() - 1,
    decreases t.len() - i,
{
    if i + 1 < t.len() {
        lemma_next_lms_none(t, i + 1);
    }
}

/// `next_lms` lies after `i` and within the map, and no LMS position lies
/// between the two; it is LMS itself unless it is the last position.
pub proof fn lemma_next_lms(t: Seq<bool>, i: int)
    requires
        0 <= i < t.len() - 1,
    ensures
        i < next_lms(t, i) <= t.len() - 1,
        forall|j: int| i < j < next_lms(t, i) ==> !lms_in(t, j),
        next_lms(t, i) < t.len() - 1 ==> lms_in(t, next_lms(t, i)),
    decreases t.len() - i,
{
    if !lms_in(t, i + 1) {
        if i + 1 < t.len() - 1 {
            lemma_next_lms(t, i + 1);
        } else {
            assert(next_lms(t, i + 1) == t.len() - 1);
        }
    }
}

/// The L/S map obeys its defining rule.
pub proof fn lemma_ls_types_is_ls_map(s: Seq<usize>)
    ensures
        is_ls_map(s, ls_types(s)),
{
    let t = ls_types(s);
    assert forall|i: int| 0 <= i < s.len() - 1 implies #[trigger] t[i] == if s[i] > s[i + 1] {
        true
    } else if s[i] < s[i + 1] {
        false
    } else {
        t[i + 1]
    } by {
        assert(t[i] == is_l(s, i));
        assert(t[i + 1] == is_l(s, i + 1));
    }
}

/// The defining rule admits one map only.
pub proof fn lemma_ls_map_unique(s: Seq<usize>, t: Seq<bool>)
    requires
        is_ls_map(s, t),
    ensures
        t == ls_types(s),
{
    lemma_ls_map_agrees(s, t, 0);
    assert(t =~= ls_types(s));
}

/// A map that obeys the defining rule agrees with the L/S types from
/// `from` on.
proof fn lemma_ls_map_agrees(s: Seq<usize>, t: Seq<bool>, from: int)
    requires
        is_ls_map(s, t),
        0 <= from,
    ensures
        forall|i: int| from <= i < s.len() ==> t[i] == is_l(s, i),
    decreases s.len() - from,
{
    if from < s.len() {
        lemma_ls_map_agrees(s, t, from + 1);
        if from < s.len() - 1 {
            assert(t[from + 1] == is_l(s, from + 1));
        }
    }
}

/// Every symbol of a text lies below the alphabet bound.
pub proof fn lemma_text_symbols(s: Seq<usize>, sigma: int)
    requires
        is_text(s, sigma),
    ensures
        forall|i: int| 0 <= i < s.len() ==> #[trigger] s[i] < sigma,
{
    assert forall|i: int| 0 <= i < s.len() implies #[trigger] s[i] < sigma by {
        if i < s.len() - 1 {
            assert(0 < s[i] < sigma);
        }
    }
}

/// An LMS position is of type S and follows one of type L.
pub proof fn lemma_lms_facts(s: Seq<usize>, p: int)
    requires
        is_lms(s, p),
    ensures
        0 < p < s.len(),
        !is_l(s, p),
        is_l(s, p - 1),
{
    let t = ls_types(s);
    assert(t[p] == is_l(s, p));
    assert(t[p - 1] == is_l(s, p - 1));
}

/// A position of type L has a successor, whose symbol is no larger; where
/// the symbols are equal the successor is of type L too.
pub proof fn lemma_l_successor(s: Seq<usize>, p: int)
    requires
        is_l(s, p),
    ensures
        0 <= p < s.len() - 1,
        s[p] >= s[p + 1],
        s[p] == s[p + 1] ==> is_l(s, p + 1),
{
}

/// A position of type S that is not the last has a successor whose symbol
/// is no smaller; where the symbols are equal the successor is of type S
/// too.
pub proof fn lemma_s_successor(s: Seq<usize>, p: int)
    requires
        0 <= p < s.len() - 1,
        !is_l(s, p),
    ensures
        s[p] <= s[p + 1],
        s[p] == s[p + 1] ==> !is_l(s, p + 1),
{
}

/// Where the last position is of type S with a predecessor, it is LMS.
pub proof fn lemma_sentinel_lms(s: Seq<usize>, sigma: int)
    requires
        is_text(s, sigma),
        s.len() >= 2,
    ensures
        is_lms(s, s.len() - 1),
{
    let n = s.len() as int;
    assert(0 < s[n - 2]);
    assert(is_l(s, n - 2));
    assert(!is_l(s, n - 1));
    assert(ls_types(s)[n - 2] == is_l(s, n - 2));
    assert(ls_types(s)[n - 1] == is_l(s, n - 1));
}

} // verus!
