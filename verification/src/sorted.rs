//! The induced sort sorts: after both scans the work array holds the
//! positions in the order of their LMS prefixes.

use crate::buckets::{bucket_end, bucket_start, l_end, lemma_bucket_layout, lemma_buckets_ordered};
use crate::induce::{
    after_l_scan, after_placing, after_s_scan, collect_lms, induce_l_step, induce_s_step, induced_l,
    induced_s, l_writes, lemma_collect, lemma_lms_sorted, lemma_order_len, lms_sorted, placed,
    s_writes, Work, INVALID,
};
use crate::left_scan::{
    induce_l_inv, l_slot, lemma_induce_l_step, lemma_induced_l, lemma_l_slot_place,
};
use crate::order::{
    key, lemma_key_decides, lemma_lex_cons, lemma_lex_refl, lemma_prefix_unfold, lex_le, lms_prefix,
    slot_key,
};
use crate::placing::{lemma_placed, placed_slot};
use crate::right_scan::{
    induce_s_inv, lemma_all_live, lemma_induced_s, lemma_live_place, lemma_s_write_facts,
    lemma_tail_live, s_live, s_step_live, tail_slot,
};
use crate::text::{
    is_l, is_lms, is_lms_list, is_text, lemma_l_successor, lemma_lms_facts, lemma_lms_positions,
    lemma_s_successor, lemma_text_symbols, lms_positions, ls_types,
};
use vstd::prelude::*;

verus! {

/// The filled slots are in order of what their positions count for.
#[verifier::opaque]
pub open spec fn l_sorted(s: Seq<usize>, w: Seq<usize>) -> bool {
    forall|i: int, j: int|
        0 <= i < j < w.len() && #[trigger] w[i] != INVALID && #[trigger] w[j] != INVALID
            ==> lex_le(slot_key(s, w[i] as int), slot_key(s, w[j] as int))
}

/// The live slots are in order of the LMS prefixes of their positions.
#[verifier::opaque]
pub open spec fn s_sorted(s: Seq<usize>, st: Work) -> bool {
    forall|i: int, j: int|
        i < j && #[trigger] s_live(s, st, i) && #[trigger] s_live(s, st, j) ==> lex_le(
            lms_prefix(s, st.slots[i] as int),
            lms_prefix(s, st.slots[j] as int),
        )
}

/// The invariant of the left-to-right scan, kept folded.
#[verifier::opaque]
pub open spec fn l_scan_ok(s: Seq<usize>, sigma: int, tails: Seq<int>, st: Work, r: int) -> bool {
    induce_l_inv(s, sigma, tails, st, r)
}

/// The invariant of the right-to-left scan, kept folded.
#[verifier::opaque]
pub open spec fn s_scan_ok(s: Seq<usize>, sigma: int, st: Work, lo: int) -> bool {
    induce_s_inv(s, sigma, st, lo)
}

/// The LMS positions as placed are in order: by symbol from bucket to
/// bucket, and all alike within one.
proof fn lemma_placed_sorted(s: Seq<usize>, sigma: int, lms: Seq<usize>)
    requires
        is_text(s, sigma),
        is_lms_list(ls_types(s), lms),
    ensures
        l_sorted(s, after_placing(s, sigma, lms).slots),
{
    reveal(l_sorted);
    let st = placed(s, sigma, lms, 0);
    let w = st.slots;
    lemma_placed(s, sigma, lms, 0);
    lemma_text_symbols(s, sigma);
    assert forall|i: int, j: int|
        0 <= i < j < w.len() && #[trigger] w[i] != INVALID && #[trigger] w[j] != INVALID implies lex_le(
        slot_key(s, w[i] as int),
        slot_key(s, w[j] as int),
    ) by {
        assert(placed_slot(s, lms, 0, st, i));
        assert(placed_slot(s, lms, 0, st, j));
        let ci = s[w[i] as int] as int;
        let cj = s[w[j] as int] as int;
        lemma_bucket_layout(s, ci);
        lemma_bucket_layout(s, cj);
        assert(l_end(s, ci) <= st.ptr[ci]);
        assert(l_end(s, cj) <= st.ptr[cj]);
        lemma_lms_facts(s, w[i] as int);
        lemma_lms_facts(s, w[j] as int);
        if cj < ci {
            lemma_buckets_ordered(s, cj, ci);
        } else if ci < cj {
            lemma_key_decides(s, w[i] as int, w[j] as int);
        } else {
            lemma_lex_refl(slot_key(s, w[i] as int));
        }
    }
}

/// The comparison behind `lemma_l_new_entry`, from what the scan's
/// invariant says of the two slots.
proof fn lemma_l_compare(s: Seq<usize>, w: Seq<usize>, r: int, x: int, slot: int)
    requires
        s.len() <= usize::MAX,
        0 <= r < s.len() == w.len(),
        0 <= x < s.len(),
        w[r] != INVALID,
        0 < w[r] < s.len(),
        is_l(s, w[r] - 1),
        w[x] != INVALID,
        w[x] < s.len(),
        l_sorted(s, w),
        bucket_start(s, s[w[r] - 1] as int) <= slot < l_end(s, s[w[r] - 1] as int),
        bucket_start(s, s[w[x] as int] as int) <= x < bucket_end(s, s[w[x] as int] as int),
        !is_l(s, w[x] as int) ==> is_lms(s, w[x] as int) && l_end(s, s[w[x] as int] as int) <= x,
        is_l(s, w[x] as int) && s[w[x] as int] == s[w[r] - 1] ==> x < slot && exists|r2: int|
            0 <= r2 < r && #[trigger] w[r2] == w[x] + 1,
    ensures
        x < slot ==> lex_le(slot_key(s, w[x] as int), slot_key(s, w[r] - 1)),
        x > slot ==> lex_le(slot_key(s, w[r] - 1), slot_key(s, w[x] as int)),
{
    reveal(l_sorted);
    let v = w[r];
    let p = v - 1;
    let c = s[p] as int;
    let q = w[x] as int;
    let cq = s[q] as int;
    lemma_l_successor(s, p);
    lemma_bucket_layout(s, c);
    lemma_bucket_layout(s, cq);
    lemma_prefix_unfold(s, p);
    if is_lms(s, p) {
        lemma_lms_facts(s, p);
    }
    assert(slot_key(s, p) == seq![key(s, p)] + slot_key(s, v as int));
    if cq < c {
        lemma_buckets_ordered(s, cq, c);
        lemma_key_decides(s, q, p);
    } else if cq > c {
        lemma_buckets_ordered(s, c, cq);
        lemma_key_decides(s, p, q);
    } else if is_l(s, q) {
        let r2 = choose|r2: int| 0 <= r2 < r && #[trigger] w[r2] == q + 1;
        lemma_l_successor(s, q);
        lemma_prefix_unfold(s, q);
        if is_lms(s, q) {
            lemma_lms_facts(s, q);
        }
        assert(slot_key(s, q) == seq![key(s, q)] + slot_key(s, q + 1));
        assert(lex_le(slot_key(s, w[r2] as int), slot_key(s, w[r] as int)));
        lemma_lex_cons(key(s, p), slot_key(s, q + 1), slot_key(s, v as int));
    } else {
        lemma_key_decides(s, p, q);
    }
}

/// What a writing step of the left-to-right scan does, from the scan's
/// invariant: it fills an empty slot in the type-L part of the bucket of
/// the position written.
proof fn lemma_l_step_facts(s: Seq<usize>, sigma: int, tails: Seq<int>, st: Work, r: int)
    requires
        is_text(s, sigma),
        0 <= r < s.len(),
        l_scan_ok(s, sigma, tails, st, r),
        l_writes(s, st, r),
    ensures
        ({
            let c = s[st.slots[r] - 1] as int;
            &&& st.slots.len() == s.len()
            &&& 0 < st.slots[r] < s.len()
            &&& 0 <= bucket_start(s, c) <= st.ptr[c] < l_end(s, c) <= s.len()
            &&& st.slots[st.ptr[c]] == INVALID
            &&& induce_l_step(s, st, r).slots == st.slots.update(
                st.ptr[c],
                (st.slots[r] - 1) as usize,
            )
        }),
{
    reveal(l_scan_ok);
    let c = s[st.slots[r] - 1] as int;
    lemma_induce_l_step(s, sigma, tails, st, r);
    lemma_bucket_layout(s, c);
    assert(bucket_start(s, c) <= st.ptr[c] <= l_end(s, c));
}

/// What `lemma_l_compare` asks of a filled slot, from the scan's
/// invariant.
proof fn lemma_l_entry_facts(s: Seq<usize>, sigma: int, tails: Seq<int>, st: Work, r: int, x: int)
    requires
        is_text(s, sigma),
        0 <= r < s.len(),
        l_scan_ok(s, sigma, tails, st, r),
        0 <= x < s.len(),
        st.slots[x] != INVALID,
    ensures
        st.slots[x] < s.len(),
        bucket_start(s, s[st.slots[x] as int] as int) <= x < bucket_end(
            s,
            s[st.slots[x] as int] as int,
        ),
        !is_l(s, st.slots[x] as int) ==> is_lms(s, st.slots[x] as int) && l_end(
            s,
            s[st.slots[x] as int] as int,
        ) <= x,
        is_l(s, st.slots[x] as int) ==> x < st.ptr[s[st.slots[x] as int] as int] && exists|r2: int|
            0 <= r2 < r && #[trigger] st.slots[r2] == st.slots[x] + 1,
{
    reveal(l_scan_ok);
    lemma_l_slot_place(s, sigma, tails, st, r, x);
    assert(l_slot(s, tails, st, r, x));
}

/// How the position a left-to-right step writes compares with the
/// position in any other filled slot.
proof fn lemma_l_new_entry(s: Seq<usize>, sigma: int, tails: Seq<int>, st: Work, r: int, x: int)
    requires
        is_text(s, sigma),
        0 <= r < s.len(),
        l_scan_ok(s, sigma, tails, st, r),
        l_sorted(s, st.slots),
        l_writes(s, st, r),
        0 <= x < s.len(),
        st.slots[x] != INVALID,
    ensures
        x < st.ptr[s[st.slots[r] - 1] as int] ==> lex_le(
            slot_key(s, st.slots[x] as int),
            slot_key(s, st.slots[r] - 1),
        ),
        x > st.ptr[s[st.slots[r] - 1] as int] ==> lex_le(
            slot_key(s, st.slots[r] - 1),
            slot_key(s, st.slots[x] as int),
        ),
{
    let c = s[st.slots[r] - 1] as int;
    lemma_l_step_facts(s, sigma, tails, st, r);
    lemma_l_entry_facts(s, sigma, tails, st, r, x);
    lemma_l_compare(s, st.slots, r, x, st.ptr[c]);
}

/// One step of the left-to-right scan keeps the filled slots in order.
proof fn lemma_l_sorted_step(s: Seq<usize>, sigma: int, tails: Seq<int>, st: Work, r: int)
    requires
        is_text(s, sigma),
        0 <= r < s.len(),
        l_scan_ok(s, sigma, tails, st, r),
        l_sorted(s, st.slots),
    ensures
        l_sorted(s, induce_l_step(s, st, r).slots),
{
    if l_writes(s, st, r) {
        let w = st.slots;
        let p = (w[r] - 1) as usize;
        let c = s[p as int] as int;
        let slot = st.ptr[c];
        let w2 = induce_l_step(s, st, r).slots;
        lemma_l_step_facts(s, sigma, tails, st, r);
        assert forall|i: int, j: int|
            0 <= i < j < w2.len() && #[trigger] w2[i] != INVALID && #[trigger] w2[j]
                != INVALID implies lex_le(slot_key(s, w2[i] as int), slot_key(s, w2[j] as int)) by {
            if i == slot {
                lemma_l_new_entry(s, sigma, tails, st, r, j);
            } else if j == slot {
                lemma_l_new_entry(s, sigma, tails, st, r, i);
            } else {
                reveal(l_sorted);
                assert(w[i] != INVALID && w[j] != INVALID);
            }
        }
        assert(l_sorted(s, w2)) by {
            reveal(l_sorted);
        }
    }
}

/// The filled slots are in order throughout the left-to-right scan.
proof fn lemma_l_scan_sorted(s: Seq<usize>, sigma: int, lms: Seq<usize>, r: int)
    requires
        is_text(s, sigma),
        is_lms_list(ls_types(s), lms),
        0 <= r <= s.len(),
    ensures
        l_sorted(s, induced_l(s, sigma, after_placing(s, sigma, lms).slots, r).slots),
    decreases r,
{
    let st0 = after_placing(s, sigma, lms);
    if r == 0 {
        lemma_placed_sorted(s, sigma, lms);
    } else {
        let st = induced_l(s, sigma, st0.slots, r - 1);
        lemma_l_scan_sorted(s, sigma, lms, r - 1);
        assert(l_scan_ok(s, sigma, st0.ptr, st, r - 1)) by {
            reveal(l_scan_ok);
            lemma_induced_l(s, sigma, lms, r - 1);
        }
        lemma_l_sorted_step(s, sigma, st0.ptr, st, r - 1);
    }
}

/// Where the right-to-left scan starts, the live slots are in order.
proof fn lemma_s_sorted_start(s: Seq<usize>, sigma: int, lms: Seq<usize>)
    requires
        is_text(s, sigma),
        is_lms_list(ls_types(s), lms),
    ensures
        s_sorted(s, induced_s(s, sigma, after_l_scan(s, sigma, lms).slots, 0)),
{
    reveal(s_sorted);
    reveal(l_sorted);
    let n = s.len() as int;
    let st = induced_s(s, sigma, after_l_scan(s, sigma, lms).slots, 0);
    let w = st.slots;
    lemma_l_scan_sorted(s, sigma, lms, n);
    lemma_induced_s(s, sigma, lms, 0);
    lemma_text_symbols(s, sigma);
    assert forall|i: int, j: int|
        i < j && #[trigger] s_live(s, st, i) && #[trigger] s_live(s, st, j) implies lex_le(
        lms_prefix(s, w[i] as int),
        lms_prefix(s, w[j] as int),
    ) by {
        let qi = w[i] as int;
        let qj = w[j] as int;
        lemma_live_place(s, sigma, st, i);
        lemma_live_place(s, sigma, st, j);
        lemma_bucket_layout(s, s[qj] as int);
        assert(is_l(s, qj));
        lemma_l_successor(s, qj);
        if is_lms(s, qj) {
            lemma_lms_facts(s, qj);
        }
        if is_l(s, qi) {
            if is_lms(s, qi) {
                lemma_lms_facts(s, qi);
            }
            assert(w[i] != INVALID && w[j] != INVALID);
        } else {
            assert(qi == n - 1);
            lemma_key_decides(s, qi, qj);
        }
    }
}

/// The comparison behind `lemma_s_new_entry`, from what the scan's
/// invariant says of the two slots.
proof fn lemma_s_compare(s: Seq<usize>, sigma: int, st: Work, r: int, x: int, slot: int)
    requires
        is_text(s, sigma),
        0 <= r < s.len(),
        s_live(s, st, r),
        s_live(s, st, x),
        s_sorted(s, st),
        0 < st.slots[r],
        !is_l(s, st.slots[r] - 1),
        0 < s[st.slots[r] - 1],
        l_end(s, s[st.slots[r] - 1] as int) <= slot < bucket_end(s, s[st.slots[r] - 1] as int),
        bucket_start(s, s[st.slots[x] as int] as int) <= x < bucket_end(
            s,
            s[st.slots[x] as int] as int,
        ),
        is_l(s, st.slots[x] as int) ==> x < l_end(s, s[st.slots[x] as int] as int),
        !is_l(s, st.slots[x] as int) && s[st.slots[x] as int] == s[st.slots[r] - 1] ==> slot < x
            && exists|r2: int|
            r < r2 < s.len() && #[trigger] s_live(s, st, r2) && st.slots[r2] == st.slots[x] + 1,
    ensures
        x < slot ==> lex_le(lms_prefix(s, st.slots[x] as int), lms_prefix(s, st.slots[r] - 1)),
        x > slot ==> lex_le(lms_prefix(s, st.slots[r] - 1), lms_prefix(s, st.slots[x] as int)),
{
    reveal(s_sorted);
    let n = s.len() as int;
    let w = st.slots;
    let v = w[r];
    let p = v - 1;
    let c = s[p] as int;
    let q = w[x] as int;
    let cq = s[q] as int;
    lemma_s_successor(s, p);
    lemma_bucket_layout(s, c);
    lemma_bucket_layout(s, cq);
    lemma_prefix_unfold(s, p);
    if is_lms(s, v as int) {
        lemma_lms_facts(s, v as int);
    }
    assert(lms_prefix(s, p) == seq![key(s, p)] + lms_prefix(s, v as int));
    if cq < c {
        lemma_buckets_ordered(s, cq, c);
        lemma_key_decides(s, q, p);
    } else if cq > c {
        lemma_buckets_ordered(s, c, cq);
        lemma_key_decides(s, p, q);
    } else if is_l(s, q) {
        lemma_key_decides(s, q, p);
    } else {
        let r2 = choose|r2: int| r < r2 < n && #[trigger] s_live(s, st, r2) && w[r2] == q + 1;
        lemma_s_successor(s, q);
        lemma_prefix_unfold(s, q);
        if is_lms(s, q + 1) {
            lemma_lms_facts(s, q + 1);
        }
        assert(lms_prefix(s, q) == seq![key(s, q)] + lms_prefix(s, q + 1));
        assert(lex_le(lms_prefix(s, w[r] as int), lms_prefix(s, w[r2] as int)));
        lemma_lex_cons(key(s, p), lms_prefix(s, v as int), lms_prefix(s, q + 1));
    }
}

/// What a writing step of the right-to-left scan does, from the scan's
/// invariant: the slot scanned is live, the slot written lies before it
/// in the type-S part of the bucket of the position written, and
/// liveness changes by that slot alone.
proof fn lemma_s_step_facts(s: Seq<usize>, sigma: int, st: Work, r: int)
    requires
        is_text(s, sigma),
        0 <= r < s.len(),
        s_scan_ok(s, sigma, st, r + 1),
        s_writes(s, st, r),
    ensures
        ({
            let c = s[st.slots[r] - 1] as int;
            &&& st.slots.len() == s.len()
            &&& st.ptr.len() == sigma
            &&& s_live(s, st, r)
            &&& 0 < c < sigma
            &&& l_end(s, c) <= st.ptr[c] - 1 < bucket_end(s, c)
            &&& 0 < st.ptr[c] - 1 < r
            &&& s_step_live(s, st, induce_s_step(s, st, r), st.ptr[c] - 1)
            &&& induce_s_step(s, st, r).slots == st.slots.update(
                st.ptr[c] - 1,
                (st.slots[r] - 1) as usize,
            )
        }),
{
    reveal(s_scan_ok);
    lemma_s_write_facts(s, sigma, st, r);
}

/// Where a live slot lies, from the scan's invariant: in the bucket of
/// its position, in the type-L part or behind the tail pointer.
proof fn lemma_s_entry_facts(s: Seq<usize>, sigma: int, st: Work, lo: int, x: int)
    requires
        is_text(s, sigma),
        s_scan_ok(s, sigma, st, lo),
        s_live(s, st, x),
    ensures
        bucket_start(s, s[st.slots[x] as int] as int) <= x < bucket_end(
            s,
            s[st.slots[x] as int] as int,
        ),
        is_l(s, st.slots[x] as int) ==> x < l_end(s, s[st.slots[x] as int] as int),
        !is_l(s, st.slots[x] as int) && 0 < s[st.slots[x] as int] ==> tail_slot(
            s,
            st,
            lo,
            s[st.slots[x] as int] as int,
            x,
        ) && st.ptr[s[st.slots[x] as int] as int] <= x,
{
    reveal(s_scan_ok);
    let q = st.slots[x] as int;
    lemma_live_place(s, sigma, st, x);
    if !is_l(s, q) && 0 < s[q] {
        lemma_bucket_layout(s, s[q] as int);
        lemma_tail_live(s, sigma, st, lo, s[q] as int, x);
    }
}

/// A position behind a tail pointer was induced from a live slot that
/// the scan has passed.
proof fn lemma_tail_witness(s: Seq<usize>, st: Work, lo: int, c: int, x: int)
    requires
        tail_slot(s, st, lo, c, x),
    ensures
        exists|r2: int|
            lo - 1 < r2 < s.len() && #[trigger] s_live(s, st, r2) && st.slots[r2] == st.slots[x]
                + 1,
{
    let r2 = choose|r2: int|
        lo <= r2 < s.len() && #[trigger] s_live(s, st, r2) && st.slots[r2] == st.slots[x] + 1;
    assert(lo - 1 < r2 < s.len() && s_live(s, st, r2) && st.slots[r2] == st.slots[x] + 1);
}

/// How the position a right-to-left step writes compares with the
/// position in any live slot.
proof fn lemma_s_new_entry(s: Seq<usize>, sigma: int, st: Work, r: int, x: int)
    requires
        is_text(s, sigma),
        0 <= r < s.len(),
        s_scan_ok(s, sigma, st, r + 1),
        s_sorted(s, st),
        s_writes(s, st, r),
        s_live(s, st, x),
    ensures
        x < st.ptr[s[st.slots[r] - 1] as int] - 1 ==> lex_le(
            lms_prefix(s, st.slots[x] as int),
            lms_prefix(s, st.slots[r] - 1),
        ),
        x > st.ptr[s[st.slots[r] - 1] as int] - 1 ==> lex_le(
            lms_prefix(s, st.slots[r] - 1),
            lms_prefix(s, st.slots[x] as int),
        ),
{
    let c = s[st.slots[r] - 1] as int;
    let q = st.slots[x] as int;
    lemma_s_step_facts(s, sigma, st, r);
    lemma_s_entry_facts(s, sigma, st, r + 1, x);
    if !is_l(s, q) && s[q] == c {
        lemma_tail_witness(s, st, r + 1, c, x);
    }
    lemma_s_compare(s, sigma, st, r, x, st.ptr[c] - 1);
}

/// One step of the right-to-left scan keeps the live slots in order.
proof fn lemma_s_sorted_step(s: Seq<usize>, sigma: int, st: Work, r: int)
    requires
        is_text(s, sigma),
        0 <= r < s.len(),
        s_scan_ok(s, sigma, st, r + 1),
        s_sorted(s, st),
    ensures
        s_sorted(s, induce_s_step(s, st, r)),
{
    if s_writes(s, st, r) {
        let w = st.slots;
        let p = (w[r] - 1) as usize;
        let c = s[p as int] as int;
        let slot = st.ptr[c] - 1;
        let st2 = induce_s_step(s, st, r);
        let w2 = st2.slots;
        lemma_s_step_facts(s, sigma, st, r);
        assert forall|i: int, j: int|
            i < j && #[trigger] s_live(s, st2, i) && #[trigger] s_live(s, st2, j) implies lex_le(
            lms_prefix(s, w2[i] as int),
            lms_prefix(s, w2[j] as int),
        ) by {
            if i == slot {
                assert(s_live(s, st, j));
                lemma_s_new_entry(s, sigma, st, r, j);
            } else if j == slot {
                assert(s_live(s, st, i));
                lemma_s_new_entry(s, sigma, st, r, i);
            } else {
                reveal(s_sorted);
                assert(s_live(s, st, i) && s_live(s, st, j));
            }
        }
        assert(s_sorted(s, st2)) by {
            reveal(s_sorted);
        }
    }
}

/// The live slots are in order throughout the right-to-left scan.
proof fn lemma_s_scan_sorted(s: Seq<usize>, sigma: int, lms: Seq<usize>, k: int)
    requires
        is_text(s, sigma),
        is_lms_list(ls_types(s), lms),
        0 <= k <= s.len(),
    ensures
        s_sorted(s, induced_s(s, sigma, after_l_scan(s, sigma, lms).slots, k)),
    decreases k,
{
    let st1 = after_l_scan(s, sigma, lms);
    if k == 0 {
        lemma_s_sorted_start(s, sigma, lms);
    } else {
        let st = induced_s(s, sigma, st1.slots, k - 1);
        lemma_s_scan_sorted(s, sigma, lms, k - 1);
        assert(s_scan_ok(s, sigma, st, s.len() - k + 1)) by {
            reveal(s_scan_ok);
            lemma_induced_s(s, sigma, lms, k - 1);
        }
        lemma_s_sorted_step(s, sigma, st, s.len() - k);
    }
}

/// After both scans the slots are in order of the LMS prefixes of their
/// positions.
pub proof fn lemma_slots_sorted(s: Seq<usize>, sigma: int, lms: Seq<usize>)
    requires
        is_text(s, sigma),
        is_lms_list(ls_types(s), lms),
        s.len() >= 2,
    ensures
        forall|i: int, j: int|
            0 <= i < j < s.len() ==> lex_le(
                lms_prefix(s, #[trigger] after_s_scan(s, sigma, lms).slots[i] as int),
                lms_prefix(s, #[trigger] after_s_scan(s, sigma, lms).slots[j] as int),
            ),
{
    reveal(s_sorted);
    let st = after_s_scan(s, sigma, lms);
    lemma_all_live(s, sigma, lms);
    lemma_s_scan_sorted(s, sigma, lms, s.len() as int);
    assert forall|i: int, j: int| 0 <= i < j < s.len() implies lex_le(
        lms_prefix(s, #[trigger] st.slots[i] as int),
        lms_prefix(s, #[trigger] st.slots[j] as int),
    ) by {
        assert(s_live(s, st, i) && s_live(s, st, j));
    }
}

/// What is collected from slots in order is in order.
proof fn lemma_collect_sorted(s: Seq<usize>, w: Seq<usize>, k: int)
    requires
        0 <= k <= w.len(),
        forall|i: int, j: int|
            0 <= i < j < w.len() ==> lex_le(
                lms_prefix(s, #[trigger] w[i] as int),
                lms_prefix(s, #[trigger] w[j] as int),
            ),
    ensures
        forall|x: int, y: int|
            0 <= x < y < collect_lms(s, w, k).len() ==> lex_le(
                lms_prefix(s, #[trigger] collect_lms(s, w, k)[x] as int),
                lms_prefix(s, #[trigger] collect_lms(s, w, k)[y] as int),
            ),
    decreases k,
{
    if k > 0 {
        lemma_collect_sorted(s, w, k - 1);
        lemma_collect(s, w, k - 1);
        let prev = collect_lms(s, w, k - 1);
        let cur = collect_lms(s, w, k);
        assert forall|x: int, y: int| 0 <= x < y < cur.len() implies lex_le(
            lms_prefix(s, #[trigger] cur[x] as int),
            lms_prefix(s, #[trigger] cur[y] as int),
        ) by {
            if y < prev.len() {
                assert(cur[x] == prev[x] && cur[y] == prev[y]);
            } else {
                assert(cur[x] == prev[x]);
                assert(cur[y] == w[k - 1]);
                let i = choose|i: int| 0 <= i < k - 1 && #[trigger] w[i] == prev[x];
                assert(lex_le(lms_prefix(s, w[i] as int), lms_prefix(s, w[k - 1] as int)));
            }
        }
    }
}

/// The induced sort returns the LMS positions in the order of their LMS
/// substrings, symbols and types compared.
pub proof fn lemma_sorted_by_substring(s: Seq<usize>, sigma: int)
    requires
        is_text(s, sigma),
    ensures
        is_sorted_by_substring(s, lms_sorted(s, sigma)),
        forall|x: int, y: int|
            0 <= x < y < lms_sorted(s, sigma).len() ==> lex_le(
                lms_prefix(s, #[trigger] lms_sorted(s, sigma)[x] as int),
                lms_prefix(s, #[trigger] lms_sorted(s, sigma)[y] as int),
            ),
{
    let lms = lms_positions(s);
    let w = after_s_scan(s, sigma, lms).slots;
    lemma_lms_positions(s);
    if s.len() >= 2 {
        lemma_slots_sorted(s, sigma, lms);
        lemma_induced_s(s, sigma, lms, s.len() as int);
        lemma_collect_sorted(s, w, s.len() as int);
    } else {
        lemma_lms_sorted(s, sigma);
        lemma_order_len(s, lms_sorted(s, sigma));
    }
}

/// The induced sort's result is in the order of the LMS substrings,
/// symbols and types compared.
pub open spec fn is_sorted_by_substring(s: Seq<usize>, a: Seq<usize>) -> bool {
    forall|x: int, y: int|
        0 <= x < y < a.len() ==> lex_le(
            lms_prefix(s, #[trigger] a[x] as int),
            lms_prefix(s, #[trigger] a[y] as int),
        )
}

} // verus!
