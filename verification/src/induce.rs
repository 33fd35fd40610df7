//! The induced sort as a sequence of steps on an abstract work array, and
//! what it returns.
//!
//! The work array has one slot per text position. A slot is empty
//! (`INVALID`) or holds a position. Next to it stands one pointer per
//! symbol into that symbol's bucket.

use crate::buckets::{
    bucket_end, bucket_ends, bucket_start, bucket_starts, in_class, lemma_count_range,
    lemma_distinct_members, Class,
};
use crate::right_scan::{lemma_all_live, lemma_induced_s, lemma_live_place, lemma_s_found, s_live};
use crate::text::{
    is_l, is_lms, is_lms_list, is_text, lemma_lms_facts, lemma_lms_positions, lemma_sentinel_lms,
    lms_positions, ls_types,
};
use vstd::prelude::*;

verus! {

/// The content of an empty slot. No text is long enough for this to be one
/// of its positions.
pub const INVALID: usize = usize::MAX;

/// The work array and the bucket pointers of one phase.
pub struct Work {
    /// One slot per text position.
    pub slots: Seq<usize>,
    /// One pointer per symbol.
    pub ptr: Seq<int>,
}

/// Puts the LMS position `p` in front of what its bucket's tail holds.
pub open spec fn place(s: Seq<usize>, st: Work, p: usize) -> Work {
    let c = s[p as int] as int;
    let slot = st.ptr[c] - 1;
    Work { slots: st.slots.update(slot, p), ptr: st.ptr.update(c, slot) }
}

/// The state after the positions `lms[k..]` were placed, last one first,
/// on an empty work array.
pub open spec fn placed(s: Seq<usize>, sigma: int, lms: Seq<usize>, k: int) -> Work
    decreases lms.len() - k,
{
    if k >= lms.len() {
        Work { slots: Seq::new(s.len(), |i: int| INVALID), ptr: bucket_ends(s, sigma) }
    } else {
        place(s, placed(s, sigma, lms, k + 1), lms[k])
    }
}

/// One step of the left-to-right scan: the position before the one in
/// slot `r`, if it is of type L, goes to the head of its bucket.
pub open spec fn induce_l_step(s: Seq<usize>, st: Work, r: int) -> Work {
    let v = st.slots[r];
    if v == INVALID || v == 0 || !is_l(s, v - 1) {
        st
    } else {
        let p = (v - 1) as usize;
        let c = s[p as int] as int;
        let slot = st.ptr[c];
        Work { slots: st.slots.update(slot, p), ptr: st.ptr.update(c, slot + 1) }
    }
}

/// The state after the first `r` slots were scanned from the left,
/// starting from the work array `w0`.
pub open spec fn induced_l(s: Seq<usize>, sigma: int, w0: Seq<usize>, r: int) -> Work
    decreases r,
{
    if r <= 0 {
        Work { slots: w0, ptr: bucket_starts(s, sigma) }
    } else {
        induce_l_step(s, induced_l(s, sigma, w0, r - 1), r - 1)
    }
}

/// Whether the scan writes at slot `r`: the slot holds a position whose
/// predecessor exists and is of type L.
pub open spec fn l_writes(s: Seq<usize>, st: Work, r: int) -> bool {
    st.slots[r] != INVALID && st.slots[r] != 0 && is_l(s, st.slots[r] - 1)
}

/// One step of the right-to-left scan: the position before the one in
/// slot `r`, if it is of type S, goes in front of what the tail of its
/// bucket holds.
pub open spec fn induce_s_step(s: Seq<usize>, st: Work, r: int) -> Work {
    let v = st.slots[r];
    if v == INVALID || v == 0 || is_l(s, v - 1) {
        st
    } else {
        let p = (v - 1) as usize;
        let c = s[p as int] as int;
        let slot = st.ptr[c] - 1;
        Work { slots: st.slots.update(slot, p), ptr: st.ptr.update(c, slot) }
    }
}

/// The state after the last `k` slots were scanned from the right,
/// starting from the work array `w1`.
pub open spec fn induced_s(s: Seq<usize>, sigma: int, w1: Seq<usize>, k: int) -> Work
    decreases k,
{
    if k <= 0 {
        Work { slots: w1, ptr: bucket_ends(s, sigma) }
    } else {
        induce_s_step(s, induced_s(s, sigma, w1, k - 1), s.len() - k)
    }
}

/// Whether the right-to-left scan writes at slot `r`: the slot holds a
/// position whose predecessor exists and is of type S.
pub open spec fn s_writes(s: Seq<usize>, st: Work, r: int) -> bool {
    st.slots[r] != INVALID && st.slots[r] != 0 && !is_l(s, st.slots[r] - 1)
}

/// The work array as the placing leaves it.
pub open spec fn after_placing(s: Seq<usize>, sigma: int, lms: Seq<usize>) -> Work {
    placed(s, sigma, lms, 0)
}

/// The work array as the left-to-right scan leaves it.
pub open spec fn after_l_scan(s: Seq<usize>, sigma: int, lms: Seq<usize>) -> Work {
    induced_l(s, sigma, after_placing(s, sigma, lms).slots, s.len() as int)
}

/// The work array as the right-to-left scan leaves it.
pub open spec fn after_s_scan(s: Seq<usize>, sigma: int, lms: Seq<usize>) -> Work {
    induced_s(s, sigma, after_l_scan(s, sigma, lms).slots, s.len() as int)
}

/// The LMS positions among the first `k` slots of `w`, in slot order.
pub open spec fn collect_lms(s: Seq<usize>, w: Seq<usize>, k: int) -> Seq<usize>
    decreases k,
{
    if k <= 0 {
        Seq::empty()
    } else if w[k - 1] != INVALID && is_lms(s, w[k - 1] as int) {
        collect_lms(s, w, k - 1).push(w[k - 1])
    } else {
        collect_lms(s, w, k - 1)
    }
}

/// What the induced sort returns when it starts from the LMS positions
/// `lms`: the LMS positions in the order in which the work array holds
/// them after both scans.
pub open spec fn lms_sorted_from(s: Seq<usize>, sigma: int, lms: Seq<usize>) -> Seq<usize> {
    collect_lms(s, after_s_scan(s, sigma, lms).slots, s.len() as int)
}

/// What the induced sort of the text `s` returns.
pub open spec fn lms_sorted(s: Seq<usize>, sigma: int) -> Seq<usize> {
    lms_sorted_from(s, sigma, lms_positions(s))
}

/// `a` holds every LMS position of `s` once and nothing else, and starts
/// with the last position wherever that is LMS.
pub open spec fn is_lms_order(s: Seq<usize>, a: Seq<usize>) -> bool {
    &&& forall|j: int| 0 <= j < a.len() ==> is_lms(s, #[trigger] a[j] as int)
    &&& forall|i: int, j: int| 0 <= i < j < a.len() ==> #[trigger] a[i] != #[trigger] a[j]
    &&& forall|q: int|
        #[trigger] is_lms(s, q) ==> exists|j: int| 0 <= j < a.len() && #[trigger] a[j] == q
    &&& s.len() >= 2 ==> a.len() >= 1 && a[0] == s.len() - 1
}

/// `w` holds every position of `s` once, each in the bucket of its
/// symbol, and the last position first.
pub open spec fn is_arrangement(s: Seq<usize>, w: Seq<usize>) -> bool {
    &&& w.len() == s.len()
    &&& forall|i: int|
        0 <= i < w.len() ==> (#[trigger] w[i]) < s.len() && bucket_start(s, s[w[i] as int] as int)
            <= i < bucket_end(s, s[w[i] as int] as int)
    &&& forall|i: int, j: int| 0 <= i < j < w.len() ==> #[trigger] w[i] != #[trigger] w[j]
    &&& w[0] == s.len() - 1
}

/// After both scans the work array is an arrangement of the positions.
pub proof fn lemma_scans_arrange(s: Seq<usize>, sigma: int, lms: Seq<usize>)
    requires
        is_text(s, sigma),
        is_lms_list(ls_types(s), lms),
        s.len() >= 2,
    ensures
        is_arrangement(s, after_s_scan(s, sigma, lms).slots),
{
    let n = s.len() as int;
    let st = after_s_scan(s, sigma, lms);
    let w = st.slots;
    lemma_all_live(s, sigma, lms);
    assert forall|i: int| 0 <= i < w.len() implies (#[trigger] w[i]) < n && bucket_start(
        s,
        s[w[i] as int] as int,
    ) <= i < bucket_end(s, s[w[i] as int] as int) by {
        assert(s_live(s, st, i));
        lemma_live_place(s, sigma, st, i);
    }
    assert forall|i: int, j: int| 0 <= i < j < w.len() implies #[trigger] w[i] != #[trigger] w[j] by {
        assert(s_live(s, st, i) && s_live(s, st, j));
    }
}

/// Whatever the work array holds, the LMS positions collected from it are
/// LMS positions it holds, and none it holds is left out.
pub proof fn lemma_collect(s: Seq<usize>, w: Seq<usize>, k: int)
    requires
        0 <= k <= w.len(),
    ensures
        forall|j: int|
            0 <= j < collect_lms(s, w, k).len() ==> is_lms(
                s,
                #[trigger] collect_lms(s, w, k)[j] as int,
            ) && exists|i: int| 0 <= i < k && #[trigger] w[i] == collect_lms(s, w, k)[j],
        forall|i: int|
            0 <= i < k && #[trigger] w[i] != INVALID && is_lms(s, w[i] as int) ==> exists|j: int|
                0 <= j < collect_lms(s, w, k).len() && #[trigger] collect_lms(s, w, k)[j] == w[i],
        k >= 1 && w[0] != INVALID && is_lms(s, w[0] as int) ==> collect_lms(s, w, k).len() >= 1
            && collect_lms(s, w, k)[0] == w[0],
        collect_lms(s, w, k).len() <= k,
    decreases k,
{
    if k > 0 {
        lemma_collect(s, w, k - 1);
        let prev = collect_lms(s, w, k - 1);
        let cur = collect_lms(s, w, k);
        let take = w[k - 1] != INVALID && is_lms(s, w[k - 1] as int);
        assert forall|j: int| 0 <= j < cur.len() implies is_lms(s, #[trigger] cur[j] as int)
            && exists|i: int| 0 <= i < k && #[trigger] w[i] == cur[j] by {
            if j < prev.len() {
                assert(cur[j] == prev[j]);
                let i = choose|i: int| 0 <= i < k - 1 && #[trigger] w[i] == prev[j];
                assert(0 <= i < k && w[i] == cur[j]);
            } else {
                assert(w[k - 1] == cur[j]);
            }
        }
        assert forall|i: int|
            0 <= i < k && #[trigger] w[i] != INVALID && is_lms(s, w[i] as int) implies exists|j: int|
            0 <= j < cur.len() && #[trigger] cur[j] == w[i] by {
            if i < k - 1 {
                let j = choose|j: int| 0 <= j < prev.len() && #[trigger] prev[j] == w[i];
                assert(cur[j] == w[i]);
            } else {
                assert(cur[prev.len() as int] == w[i]);
            }
        }
        if k >= 2 && w[0] != INVALID && is_lms(s, w[0] as int) {
            assert(cur[0] == prev[0]);
        }
    }
}

/// No position is collected twice from a work array that holds none
/// twice.
pub proof fn lemma_collect_distinct(s: Seq<usize>, w: Seq<usize>, k: int)
    requires
        0 <= k <= w.len(),
        forall|i: int, j: int| 0 <= i < j < w.len() ==> #[trigger] w[i] != #[trigger] w[j],
    ensures
        forall|i: int, j: int|
            0 <= i < j < collect_lms(s, w, k).len() ==> #[trigger] collect_lms(s, w, k)[i]
                != #[trigger] collect_lms(s, w, k)[j],
    decreases k,
{
    if k > 0 {
        lemma_collect_distinct(s, w, k - 1);
        lemma_collect(s, w, k - 1);
        let prev = collect_lms(s, w, k - 1);
        let cur = collect_lms(s, w, k);
        assert forall|i: int, j: int| 0 <= i < j < cur.len() implies #[trigger] cur[i]
            != #[trigger] cur[j] by {
            if j < prev.len() {
                assert(cur[i] == prev[i] && cur[j] == prev[j]);
            } else {
                assert(cur[i] == prev[i]);
                let i0 = choose|i0: int| 0 <= i0 < k - 1 && #[trigger] w[i0] == prev[i];
                assert(w[i0] != w[k - 1]);
            }
        }
    }
}

/// The induced sort returns every LMS position once and nothing else,
/// the last position first.
pub proof fn lemma_lms_sorted_from(s: Seq<usize>, sigma: int, lms: Seq<usize>)
    requires
        is_text(s, sigma),
        is_lms_list(ls_types(s), lms),
    ensures
        is_lms_order(s, lms_sorted_from(s, sigma, lms)),
{
    let n = s.len() as int;
    let w = after_s_scan(s, sigma, lms).slots;
    let a = lms_sorted_from(s, sigma, lms);
    lemma_induced_s(s, sigma, lms, n);
    lemma_collect(s, w, n);
    if n >= 2 {
        lemma_scans_arrange(s, sigma, lms);
        lemma_collect_distinct(s, w, n);
        lemma_sentinel_lms(s, sigma);
        assert forall|q: int| #[trigger] is_lms(s, q) implies exists|j: int|
            0 <= j < a.len() && #[trigger] a[j] == q by {
            lemma_lms_facts(s, q);
            let st = after_s_scan(s, sigma, lms);
            let i = lemma_s_found(s, sigma, st, q);
            assert(w[i] != INVALID && is_lms(s, w[i] as int));
        }
    } else {
        if a.len() > 0 {
            lemma_lms_facts(s, a[0] as int);
        }
        assert forall|q: int| #[trigger] is_lms(s, q) implies exists|j: int|
            0 <= j < a.len() && #[trigger] a[j] == q by {
            lemma_lms_facts(s, q);
        }
    }
}

/// The induced sort of a text returns every LMS position once and nothing
/// else, the last position first.
pub proof fn lemma_lms_sorted(s: Seq<usize>, sigma: int)
    requires
        is_text(s, sigma),
    ensures
        is_lms_order(s, lms_sorted(s, sigma)),
{
    lemma_lms_positions(s);
    lemma_lms_sorted_from(s, sigma, lms_positions(s));
}

/// An order of the LMS positions is no longer than the text.
pub proof fn lemma_order_len(s: Seq<usize>, a: Seq<usize>)
    requires
        is_lms_order(s, a),
        s.len() <= usize::MAX,
    ensures
        a.len() <= s.len(),
{
    assert forall|j: int| 0 <= j < a.len() implies (#[trigger] a[j]) < s.len() && in_class(
        s,
        Class::Lms,
        0,
        a[j] as int,
    ) by {
        lemma_lms_facts(s, a[j] as int);
    }
    assert forall|i: int, j: int| 0 <= i < a.len() && 0 <= j < a.len() && i != j implies a[i]
        != a[j] by {
        if i < j {
            assert(a[i] != a[j]);
        } else {
            assert(a[j] != a[i]);
        }
    }
    lemma_distinct_members(s, Class::Lms, 0, a, s.len() as int);
    lemma_count_range(s, Class::Lms, 0, s.len() as int);
}

} // verus!
