//! The right-to-left scan of the induced sort: what it keeps true, and
//! that it leaves every position in its bucket, once.

use crate::buckets::{
    bucket_end, bucket_ends, bucket_start, in_class, l_end, lemma_bucket_layout,
    lemma_buckets_ordered, lemma_distinct_members, lemma_sentinel_bucket, lemma_slot_bucket,
    lemma_slots_cover, Class,
};
use crate::induce::{
    after_l_scan, after_s_scan, induce_s_step, induced_s, placed, s_writes, Work, INVALID,
};
use crate::left_scan::{
    distinct_slots, induce_l_inv, l_bounds, l_heads, l_slot, l_slots, lemma_induced_l,
    lemma_l_all_full, lemma_l_found, lemma_l_slot_place, lms_present,
};
use crate::text::{
    is_l, is_lms, is_lms_list, is_text, lemma_lms_facts, lemma_s_successor, lemma_sentinel_lms,
    lemma_text_symbols, ls_types,
};
use vstd::prelude::*;

verus! {

/// Whether slot `i` holds a position that the right-to-left scan counts
/// on: one of type L in the type-L part of its bucket, one of type S at
/// or behind the tail pointer of its bucket, or the last position in the
/// first slot.
pub open spec fn s_live(s: Seq<usize>, st: Work, i: int) -> bool {
    let q = st.slots[i];
    let c = s[q as int] as int;
    &&& 0 <= i < s.len()
    &&& q != INVALID
    &&& q < s.len()
    &&& if is_l(s, q as int) {
        bucket_start(s, c) <= i < l_end(s, c)
    } else if q == s.len() - 1 {
        i == 0
    } else {
        st.ptr[c] <= i < bucket_end(s, c)
    }
}

/// The tail pointers stay within the type-S parts of their buckets, and
/// that of the sentinel's bucket where it was.
pub open spec fn s_bounds(s: Seq<usize>, sigma: int, st: Work) -> bool {
    &&& st.slots.len() == s.len()
    &&& st.ptr.len() == sigma
    &&& forall|c: int| 0 <= c < sigma ==> l_end(s, c) <= #[trigger] st.ptr[c] <= bucket_end(s, c)
    &&& st.ptr[0] == bucket_end(s, 0)
    &&& forall|i: int| 0 <= i < s.len() ==> #[trigger] st.slots[i] == INVALID || st.slots[i] < s.len()
    &&& s.len() >= 2 ==> st.slots[0] == s.len() - 1
}

/// The type-L part of every bucket holds type-L positions of its symbol.
pub open spec fn s_lpart(s: Seq<usize>, sigma: int, w: Seq<usize>) -> bool {
    forall|c: int, i: int|
        #![trigger l_end(s, c), w[i]]
        0 <= c < sigma && bucket_start(s, c) <= i < l_end(s, c) ==> w[i] != INVALID && s[w[i] as int]
            == c && is_l(s, w[i] as int)
}

/// Every position of type L sits in the type-L part of its bucket.
pub open spec fn l_present(s: Seq<usize>, w: Seq<usize>) -> bool {
    forall|p: int|
        #[trigger] is_l(s, p) ==> exists|i: int|
            bucket_start(s, s[p] as int) <= i < l_end(s, s[p] as int) && #[trigger] w[i] == p
}

/// What holds of slot `i` behind the tail pointer of the bucket of `c`:
/// it holds a type-S position of that symbol, put there when its
/// successor was scanned in a slot from `lo` on.
pub open spec fn tail_slot(s: Seq<usize>, st: Work, lo: int, c: int, i: int) -> bool {
    let q = st.slots[i];
    &&& q != INVALID
    &&& q < s.len() - 1
    &&& s[q as int] == c
    &&& !is_l(s, q as int)
    &&& exists|r2: int| lo <= r2 < s.len() && #[trigger] s_live(s, st, r2) && st.slots[r2] == q + 1
}

/// Every slot behind a tail pointer satisfies `tail_slot`.
pub open spec fn s_tails(s: Seq<usize>, sigma: int, st: Work, lo: int) -> bool {
    forall|c: int, i: int|
        #![trigger st.ptr[c], st.slots[i]]
        1 <= c < sigma && st.ptr[c] <= i < bucket_end(s, c) ==> tail_slot(s, st, lo, c, i)
}

/// A slot of the type-S part before the tail pointer is empty or holds
/// what the placing left there.
pub open spec fn s_stale(s: Seq<usize>, sigma: int, st: Work) -> bool {
    forall|c: int, i: int|
        #![trigger st.ptr[c], st.slots[i]]
        0 <= c < sigma && l_end(s, c) <= i < st.ptr[c] ==> st.slots[i] == INVALID || is_lms(
            s,
            st.slots[i] as int,
        )
}

/// No position sits in two live slots.
pub open spec fn s_distinct(s: Seq<usize>, st: Work) -> bool {
    forall|i: int, j: int|
        #[trigger] s_live(s, st, i) && #[trigger] s_live(s, st, j) && i != j ==> st.slots[i]
            != st.slots[j]
}

/// Whatever the scanned slots call for has been induced: the type-S
/// predecessor of a position in a live slot from `lo` on sits in a live
/// slot.
pub open spec fn s_closed(s: Seq<usize>, st: Work, lo: int) -> bool {
    forall|r2: int|
        lo <= r2 < s.len() && #[trigger] s_live(s, st, r2) && st.slots[r2] != 0 && !is_l(
            s,
            st.slots[r2] - 1,
        ) ==> exists|i: int| #[trigger] s_live(s, st, i) && st.slots[i] == st.slots[r2] - 1
}

/// What the right-to-left scan keeps true once the slots from `lo` on are
/// scanned.
pub open spec fn induce_s_inv(s: Seq<usize>, sigma: int, st: Work, lo: int) -> bool {
    &&& s_bounds(s, sigma, st)
    &&& s_lpart(s, sigma, st.slots)
    &&& l_present(s, st.slots)
    &&& s_tails(s, sigma, st, lo)
    &&& s_stale(s, sigma, st)
    &&& s_distinct(s, st)
    &&& s_closed(s, st, lo)
}

/// Where the right-to-left scan starts, the tail pointers stand at the
/// ends of their buckets and the last position in the first slot.
proof fn lemma_s_start_bounds(s: Seq<usize>, sigma: int, tails: Seq<int>, st: Work)
    requires
        is_text(s, sigma),
        l_bounds(s, sigma, tails, st),
        l_slots(s, tails, st, s.len() as int),
        lms_present(s, st.slots),
    ensures
        s_bounds(s, sigma, Work { slots: st.slots, ptr: bucket_ends(s, sigma) }),
{
    let n = s.len() as int;
    let w = st.slots;
    let st2 = Work { slots: st.slots, ptr: bucket_ends(s, sigma) };
    lemma_sentinel_bucket(s, sigma);
    assert forall|c: int| 0 <= c < sigma implies l_end(s, c) <= #[trigger] st2.ptr[c] <= bucket_end(
        s,
        c,
    ) by {
        lemma_bucket_layout(s, c);
    }
    assert forall|i: int| 0 <= i < n implies #[trigger] w[i] == INVALID || w[i] < n by {
        if w[i] != INVALID {
            assert(l_slot(s, tails, st, n, i));
        }
    }
    if n >= 2 {
        lemma_sentinel_lms(s, sigma);
        let i = choose|i: int| 0 <= i < w.len() && #[trigger] w[i] == n - 1;
        assert(l_slot(s, tails, st, n, i));
        assert(l_end(s, 0) <= tails[0] <= bucket_end(s, 0));
    }
}

/// Where the right-to-left scan starts, the type-L parts are filled.
proof fn lemma_s_start_lpart(s: Seq<usize>, sigma: int, st: Work)
    requires
        l_heads(s, sigma, st),
        forall|c: int| 0 <= c < sigma ==> #[trigger] st.ptr[c] == l_end(s, c),
    ensures
        s_lpart(s, sigma, st.slots),
{
    let w = st.slots;
    assert forall|c: int, i: int|
        #![trigger l_end(s, c), w[i]]
        0 <= c < sigma && bucket_start(s, c) <= i < l_end(s, c) implies w[i] != INVALID && s[w[i] as int]
            == c && is_l(s, w[i] as int) by {
        assert(st.ptr[c] == l_end(s, c));
    }
}

/// Where the right-to-left scan starts, every position of type L sits in
/// the type-L part of its bucket.
proof fn lemma_s_start_present(s: Seq<usize>, sigma: int, tails: Seq<int>, st: Work)
    requires
        is_text(s, sigma),
        induce_l_inv(s, sigma, tails, st, s.len() as int),
        forall|c: int| 0 <= c < sigma ==> #[trigger] st.ptr[c] == l_end(s, c),
    ensures
        l_present(s, st.slots),
{
    let n = s.len() as int;
    let w = st.slots;
    lemma_text_symbols(s, sigma);
    assert forall|p: int| #[trigger] is_l(s, p) implies exists|i: int|
        bucket_start(s, s[p] as int) <= i < l_end(s, s[p] as int) && #[trigger] w[i] == p by {
        let i = lemma_l_found(s, sigma, tails, st, p);
        assert(l_slot(s, tails, st, n, i));
        assert(st.ptr[s[p] as int] == l_end(s, s[p] as int));
    }
}

/// Where the right-to-left scan starts, the type-S parts hold nothing but
/// what the placing left there.
proof fn lemma_s_start_stale(s: Seq<usize>, sigma: int, tails: Seq<int>, st: Work)
    requires
        is_text(s, sigma),
        l_bounds(s, sigma, tails, st),
        l_slots(s, tails, st, s.len() as int),
        forall|c: int| 0 <= c < sigma ==> #[trigger] st.ptr[c] == l_end(s, c),
    ensures
        s_stale(s, sigma, Work { slots: st.slots, ptr: bucket_ends(s, sigma) }),
{
    let n = s.len() as int;
    let w = st.slots;
    let st2 = Work { slots: st.slots, ptr: bucket_ends(s, sigma) };
    assert forall|c: int, i: int|
        #![trigger st2.ptr[c], st2.slots[i]]
        0 <= c < sigma && l_end(s, c) <= i < st2.ptr[c] implies st2.slots[i] == INVALID || is_lms(
            s,
            st2.slots[i] as int,
        ) by {
        lemma_bucket_layout(s, c);
        if w[i] != INVALID {
            lemma_l_slot_place(s, sigma, tails, st, n, i);
            assert(l_slot(s, tails, st, n, i));
            let c2 = s[w[i] as int] as int;
            if c2 < c {
                lemma_buckets_ordered(s, c2, c);
            } else if c2 > c {
                lemma_buckets_ordered(s, c, c2);
            }
            assert(st.ptr[c] == l_end(s, c));
        }
    }
}

/// Slots that hold no position twice hold none twice among the live
/// ones.
proof fn lemma_s_start_distinct(s: Seq<usize>, st2: Work)
    requires
        st2.slots.len() == s.len(),
        distinct_slots(st2.slots),
    ensures
        s_distinct(s, st2),
{
    let w = st2.slots;
    assert forall|i: int, j: int|
        #[trigger] s_live(s, st2, i) && #[trigger] s_live(s, st2, j) && i != j implies st2.slots[i]
            != st2.slots[j] by {
        if i < j {
            assert(w[i] != w[j]);
        } else {
            assert(w[j] != w[i]);
        }
    }
}

/// The state the left-to-right scan ends in is one the right-to-left scan
/// can start from.
pub proof fn lemma_induce_s_start(s: Seq<usize>, sigma: int, tails: Seq<int>, st: Work)
    requires
        is_text(s, sigma),
        induce_l_inv(s, sigma, tails, st, s.len() as int),
    ensures
        induce_s_inv(s, sigma, Work { slots: st.slots, ptr: bucket_ends(s, sigma) }, s.len() as int),
{
    let st2 = Work { slots: st.slots, ptr: bucket_ends(s, sigma) };
    lemma_l_all_full(s, sigma, tails, st);
    lemma_s_start_bounds(s, sigma, tails, st);
    lemma_s_start_lpart(s, sigma, st);
    lemma_s_start_present(s, sigma, tails, st);
    lemma_s_start_stale(s, sigma, tails, st);
    lemma_s_start_distinct(s, st2);
    assert(s_tails(s, sigma, st2, s.len() as int));
    assert(s_closed(s, st2, s.len() as int));
}

/// A slot at which the right-to-left scan writes is live.
proof fn lemma_s_scan_live(s: Seq<usize>, sigma: int, st: Work, lo: int, r: int)
    requires
        is_text(s, sigma),
        0 <= r < s.len(),
        s_bounds(s, sigma, st),
        s_lpart(s, sigma, st.slots),
        s_tails(s, sigma, st, lo),
        s_stale(s, sigma, st),
        s_writes(s, st, r),
    ensures
        s_live(s, st, r),
        0 < s[st.slots[r] - 1] < sigma,
{
    let n = s.len() as int;
    let w = st.slots;
    let v = w[r];
    lemma_text_symbols(s, sigma);
    let c0 = lemma_slot_bucket(s, sigma, r);
    lemma_bucket_layout(s, c0);
    assert(l_end(s, c0) <= st.ptr[c0] <= bucket_end(s, c0));
    assert(v < n);
    assert(0 < s[v - 1]);
    if r < l_end(s, c0) {
        assert(w[r] != INVALID && s[w[r] as int] == c0 && is_l(s, w[r] as int));
    } else if r < st.ptr[c0] {
        assert(w[r] == INVALID || is_lms(s, w[r] as int));
        lemma_lms_facts(s, v as int);
        assert(false);
    } else {
        lemma_sentinel_bucket(s, sigma);
        assert(c0 >= 1);
        assert(tail_slot(s, st, lo, c0, r));
    }
}

/// A slot behind a tail pointer is live.
pub proof fn lemma_tail_live(s: Seq<usize>, sigma: int, st: Work, lo: int, c: int, i: int)
    requires
        s_tails(s, sigma, st, lo),
        1 <= c < sigma,
        0 <= st.ptr[c] <= i < bucket_end(s, c) <= s.len(),
    ensures
        s_live(s, st, i),
        tail_slot(s, st, lo, c, i),
{
    assert(tail_slot(s, st, lo, c, i));
}

/// Where the right-to-left scan writes, the position written is not
/// behind the tail pointer of its bucket yet.
proof fn lemma_s_write_fresh(s: Seq<usize>, sigma: int, st: Work, r: int)
    requires
        is_text(s, sigma),
        0 <= r < s.len(),
        s_bounds(s, sigma, st),
        s_tails(s, sigma, st, r + 1),
        s_distinct(s, st),
        s_writes(s, st, r),
        s_live(s, st, r),
        0 < s[st.slots[r] - 1] < sigma,
    ensures
        forall|i: int|
            st.ptr[s[st.slots[r] - 1] as int] <= i < bucket_end(s, s[st.slots[r] - 1] as int)
                ==> #[trigger] st.slots[i] != st.slots[r] - 1,
{
    let w = st.slots;
    let p = w[r] - 1;
    let c = s[p] as int;
    lemma_bucket_layout(s, c);
    assert(l_end(s, c) <= st.ptr[c] <= bucket_end(s, c));
    assert forall|i: int| st.ptr[c] <= i < bucket_end(s, c) implies #[trigger] w[i] != p by {
        if w[i] == p {
            assert(tail_slot(s, st, r + 1, c, i));
            let r2 = choose|r2: int|
                r + 1 <= r2 < s.len() && #[trigger] s_live(s, st, r2) && w[r2] == p + 1;
            assert(s_live(s, st, r));
            assert(w[r2] == w[r]);
        }
    }
}

/// Where the right-to-left scan writes, the tail of the bucket has room.
proof fn lemma_s_write_room(s: Seq<usize>, sigma: int, st: Work, r: int)
    requires
        is_text(s, sigma),
        0 <= r < s.len(),
        s_bounds(s, sigma, st),
        s_tails(s, sigma, st, r + 1),
        s_distinct(s, st),
        s_writes(s, st, r),
        st.slots[r] < s.len(),
        0 < s[st.slots[r] - 1] < sigma,
        forall|i: int|
            st.ptr[s[st.slots[r] - 1] as int] <= i < bucket_end(s, s[st.slots[r] - 1] as int)
                ==> #[trigger] st.slots[i] != st.slots[r] - 1,
    ensures
        l_end(s, s[st.slots[r] - 1] as int) < st.ptr[s[st.slots[r] - 1] as int],
{
    let n = s.len() as int;
    let w = st.slots;
    let p = (w[r] - 1) as usize;
    let c = s[p as int] as int;
    lemma_bucket_layout(s, c);
    assert(l_end(s, c) <= st.ptr[c] <= bucket_end(s, c));
    let tail = w.subrange(st.ptr[c], bucket_end(s, c));
    let q = tail.push(p);
    assert forall|j: int| 0 <= j < q.len() implies (#[trigger] q[j]) < n && in_class(
        s,
        Class::EqualS,
        c,
        q[j] as int,
    ) by {
        if j < tail.len() {
            let i = st.ptr[c] + j;
            assert(q[j] == w[i]);
            lemma_tail_live(s, sigma, st, r + 1, c, i);
        }
    }
    assert forall|a: int, b: int| 0 <= a < q.len() && 0 <= b < q.len() && a != b implies q[a]
        != q[b] by {
        let ia = st.ptr[c] + a;
        let ib = st.ptr[c] + b;
        if a < tail.len() {
            lemma_tail_live(s, sigma, st, r + 1, c, ia);
            assert(q[a] == w[ia]);
        }
        if b < tail.len() {
            lemma_tail_live(s, sigma, st, r + 1, c, ib);
            assert(q[b] == w[ib]);
        }
    }
    lemma_distinct_members(s, Class::EqualS, c, q, n);
}

/// A live slot lies in the bucket of the symbol of the position it holds.
pub proof fn lemma_live_place(s: Seq<usize>, sigma: int, st: Work, i: int)
    requires
        is_text(s, sigma),
        s_bounds(s, sigma, st),
        s_live(s, st, i),
    ensures
        0 <= s[st.slots[i] as int] < sigma,
        bucket_start(s, s[st.slots[i] as int] as int) <= i < bucket_end(
            s,
            s[st.slots[i] as int] as int,
        ),
        is_l(s, st.slots[i] as int) ==> i < l_end(s, s[st.slots[i] as int] as int),
        !is_l(s, st.slots[i] as int) ==> l_end(s, s[st.slots[i] as int] as int) <= i,
        !is_l(s, st.slots[i] as int) && st.slots[i] != s.len() - 1 ==> st.ptr[s[st.slots[i] as int] as int]
            <= i,
{
    lemma_text_symbols(s, sigma);
    let c = s[st.slots[i] as int] as int;
    lemma_bucket_layout(s, c);
    lemma_sentinel_bucket(s, sigma);
    assert(l_end(s, c) <= st.ptr[c] <= bucket_end(s, c));
}

/// Where the right-to-left scan writes, the slot it writes to lies before
/// the slot scanned, behind the first slot, and is not live.
proof fn lemma_s_write_slot(s: Seq<usize>, sigma: int, st: Work, r: int)
    requires
        is_text(s, sigma),
        0 <= r < s.len(),
        s_bounds(s, sigma, st),
        s_writes(s, st, r),
        s_live(s, st, r),
        0 < s[st.slots[r] - 1] < sigma,
        l_end(s, s[st.slots[r] - 1] as int) < st.ptr[s[st.slots[r] - 1] as int],
    ensures
        0 < st.ptr[s[st.slots[r] - 1] as int] - 1 < r,
        !s_live(s, st, st.ptr[s[st.slots[r] - 1] as int] - 1),
{
    let w = st.slots;
    let v = w[r];
    let p = v - 1;
    let c = s[p] as int;
    let slot = st.ptr[c] - 1;
    lemma_bucket_layout(s, c);
    lemma_sentinel_bucket(s, sigma);
    lemma_buckets_ordered(s, 0, c);
    assert(l_end(s, c) <= st.ptr[c] <= bucket_end(s, c));
    lemma_s_successor(s, p);
    lemma_live_place(s, sigma, st, r);
    let cv = s[v as int] as int;
    if c < cv {
        lemma_buckets_ordered(s, c, cv);
    }
    if s_live(s, st, slot) {
        lemma_live_place(s, sigma, st, slot);
        let c2 = s[w[slot] as int] as int;
        if c2 < c {
            lemma_buckets_ordered(s, c2, c);
        } else if c2 > c {
            lemma_buckets_ordered(s, c, c2);
        }
        assert(false);
    }
}

/// What a writing step of the right-to-left scan does to liveness: live
/// slots stay live and keep their content, and the only slot to become
/// live is the one written.
pub open spec fn s_step_live(s: Seq<usize>, st: Work, st2: Work, slot: int) -> bool {
    &&& forall|i: int| #[trigger]
        s_live(s, st, i) ==> s_live(s, st2, i) && st2.slots[i] == st.slots[i] && i != slot
    &&& forall|i: int| #[trigger] s_live(s, st2, i) ==> i == slot || s_live(s, st, i)
    &&& s_live(s, st2, slot)
}

/// A writing step of the right-to-left scan changes liveness as
/// `s_step_live` says.
proof fn lemma_s_step_live(s: Seq<usize>, sigma: int, st: Work, r: int)
    requires
        is_text(s, sigma),
        0 <= r < s.len(),
        s_bounds(s, sigma, st),
        s_writes(s, st, r),
        st.slots[r] < s.len(),
        0 < s[st.slots[r] - 1] < sigma,
        l_end(s, s[st.slots[r] - 1] as int) < st.ptr[s[st.slots[r] - 1] as int],
        !s_live(s, st, st.ptr[s[st.slots[r] - 1] as int] - 1),
    ensures
        s_step_live(s, st, induce_s_step(s, st, r), st.ptr[s[st.slots[r] - 1] as int] - 1),
{
    let n = s.len() as int;
    let w = st.slots;
    let v = w[r];
    let p = (v - 1) as usize;
    let c = s[p as int] as int;
    let slot = st.ptr[c] - 1;
    let st2 = induce_s_step(s, st, r);
    lemma_text_symbols(s, sigma);
    lemma_bucket_layout(s, c);
    assert(l_end(s, c) <= st.ptr[c] <= bucket_end(s, c));
    assert forall|i: int| #[trigger] s_live(s, st, i) implies s_live(s, st2, i) && st2.slots[i]
        == st.slots[i] && i != slot by {
        let ci = s[w[i] as int] as int;
        assert(st2.ptr[ci] <= st.ptr[ci]);
    }
    assert forall|i: int| #[trigger] s_live(s, st2, i) implies i == slot || s_live(s, st, i) by {
        if i != slot {
            assert(st2.slots[i] == w[i]);
            let ci = s[w[i] as int] as int;
            if ci != c {
                assert(st2.ptr[ci] == st.ptr[ci]);
            }
        }
    }
    assert(st2.slots[slot] == p);
    assert(st2.ptr[c] == slot);
}

/// A writing step keeps `s_bounds`, `s_lpart`, `l_present` and `s_stale`.
proof fn lemma_s_write_keeps_parts(s: Seq<usize>, sigma: int, st: Work, r: int)
    requires
        is_text(s, sigma),
        0 <= r < s.len(),
        s_bounds(s, sigma, st),
        s_lpart(s, sigma, st.slots),
        l_present(s, st.slots),
        s_stale(s, sigma, st),
        s_writes(s, st, r),
        st.slots[r] < s.len(),
        0 < s[st.slots[r] - 1] < sigma,
        l_end(s, s[st.slots[r] - 1] as int) < st.ptr[s[st.slots[r] - 1] as int],
        0 < st.ptr[s[st.slots[r] - 1] as int] - 1,
    ensures
        s_bounds(s, sigma, induce_s_step(s, st, r)),
        s_lpart(s, sigma, induce_s_step(s, st, r).slots),
        l_present(s, induce_s_step(s, st, r).slots),
        s_stale(s, sigma, induce_s_step(s, st, r)),
{
    let n = s.len() as int;
    let w = st.slots;
    let v = w[r];
    let p = (v - 1) as usize;
    let c = s[p as int] as int;
    let slot = st.ptr[c] - 1;
    let st2 = induce_s_step(s, st, r);
    let w2 = st2.slots;
    lemma_text_symbols(s, sigma);
    lemma_bucket_layout(s, c);
    assert(l_end(s, c) <= st.ptr[c] <= bucket_end(s, c));
    assert forall|c3: int| 0 <= c3 < sigma implies l_end(s, c3) <= #[trigger] st2.ptr[c3]
        <= bucket_end(s, c3) by {
        assert(l_end(s, c3) <= st.ptr[c3] <= bucket_end(s, c3));
    }
    assert forall|i: int| 0 <= i < n implies #[trigger] w2[i] == INVALID || w2[i] < n by {
        if i != slot {
            assert(w[i] == INVALID || w[i] < n);
        }
    }
    assert forall|c3: int, i: int|
        #![trigger l_end(s, c3), w2[i]]
        0 <= c3 < sigma && bucket_start(s, c3) <= i < l_end(s, c3) implies w2[i] != INVALID && s[w2[i] as int]
            == c3 && is_l(s, w2[i] as int) by {
        lemma_bucket_layout(s, c3);
        if c3 < c {
            lemma_buckets_ordered(s, c3, c);
        } else if c3 > c {
            lemma_buckets_ordered(s, c, c3);
        }
        assert(i != slot);
        assert(w[i] != INVALID && s[w[i] as int] == c3 && is_l(s, w[i] as int));
    }
    assert forall|pp: int| #[trigger] is_l(s, pp) implies exists|i: int|
        bucket_start(s, s[pp] as int) <= i < l_end(s, s[pp] as int) && #[trigger] w2[i] == pp by {
        let i = choose|i: int|
            bucket_start(s, s[pp] as int) <= i < l_end(s, s[pp] as int) && #[trigger] w[i] == pp;
        let c3 = s[pp] as int;
        lemma_bucket_layout(s, c3);
        if c3 < c {
            lemma_buckets_ordered(s, c3, c);
        } else if c3 > c {
            lemma_buckets_ordered(s, c, c3);
        }
        assert(i != slot);
        assert(w2[i] == pp);
    }
    assert forall|c3: int, i: int|
        #![trigger st2.ptr[c3], st2.slots[i]]
        0 <= c3 < sigma && l_end(s, c3) <= i < st2.ptr[c3] implies st2.slots[i] == INVALID || is_lms(
            s,
            st2.slots[i] as int,
        ) by {
        lemma_bucket_layout(s, c3);
        assert(l_end(s, c3) <= st.ptr[c3] <= bucket_end(s, c3));
        if c3 < c {
            lemma_buckets_ordered(s, c3, c);
        } else if c3 > c {
            lemma_buckets_ordered(s, c, c3);
        }
        assert(i != slot);
        assert(w[i] == INVALID || is_lms(s, w[i] as int));
    }
}

/// A writing step keeps `s_tails`.
proof fn lemma_s_write_keeps_tails(s: Seq<usize>, sigma: int, st: Work, r: int)
    requires
        is_text(s, sigma),
        0 <= r < s.len(),
        s_bounds(s, sigma, st),
        s_tails(s, sigma, st, r + 1),
        s_writes(s, st, r),
        s_live(s, st, r),
        0 < s[st.slots[r] - 1] < sigma,
        l_end(s, s[st.slots[r] - 1] as int) < st.ptr[s[st.slots[r] - 1] as int],
        s_step_live(s, st, induce_s_step(s, st, r), st.ptr[s[st.slots[r] - 1] as int] - 1),
    ensures
        s_tails(s, sigma, induce_s_step(s, st, r), r),
{
    let n = s.len() as int;
    let w = st.slots;
    let v = w[r];
    let p = (v - 1) as usize;
    let c = s[p as int] as int;
    let slot = st.ptr[c] - 1;
    let st2 = induce_s_step(s, st, r);
    let w2 = st2.slots;
    lemma_bucket_layout(s, c);
    assert(l_end(s, c) <= st.ptr[c] <= bucket_end(s, c));
    assert forall|c3: int, i: int|
        #![trigger st2.ptr[c3], st2.slots[i]]
        1 <= c3 < sigma && st2.ptr[c3] <= i < bucket_end(s, c3) implies tail_slot(
            s,
            st2,
            r,
            c3,
            i,
        ) by {
        lemma_bucket_layout(s, c3);
        assert(l_end(s, c3) <= st.ptr[c3] <= bucket_end(s, c3));
        if i == slot {
            if c3 != c {
                lemma_tail_live(s, sigma, st, r + 1, c3, i);
                assert(false);
            }
            assert(s_live(s, st2, r) && w2[r] == w[r]);
        } else {
            lemma_tail_live(s, sigma, st, r + 1, c3, i);
            let r2 = choose|r2: int|
                r + 1 <= r2 < n && #[trigger] s_live(s, st, r2) && w[r2] == w[i] + 1;
            assert(s_live(s, st2, r2) && w2[r2] == w[r2]);
            assert(s_live(s, st2, i) && w2[i] == w[i]);
        }
    }
}

/// A writing step keeps `s_distinct` and `s_closed`.
proof fn lemma_s_write_keeps_closed(s: Seq<usize>, sigma: int, st: Work, r: int)
    requires
        is_text(s, sigma),
        0 <= r < s.len(),
        s_bounds(s, sigma, st),
        s_distinct(s, st),
        s_closed(s, st, r + 1),
        s_writes(s, st, r),
        s_live(s, st, r),
        0 < s[st.slots[r] - 1] < sigma,
        l_end(s, s[st.slots[r] - 1] as int) < st.ptr[s[st.slots[r] - 1] as int],
        st.ptr[s[st.slots[r] - 1] as int] - 1 < r,
        s_step_live(s, st, induce_s_step(s, st, r), st.ptr[s[st.slots[r] - 1] as int] - 1),
        forall|i: int|
            st.ptr[s[st.slots[r] - 1] as int] <= i < bucket_end(s, s[st.slots[r] - 1] as int)
                ==> #[trigger] st.slots[i] != st.slots[r] - 1,
    ensures
        s_distinct(s, induce_s_step(s, st, r)),
        s_closed(s, induce_s_step(s, st, r), r),
{
    let n = s.len() as int;
    let w = st.slots;
    let v = w[r];
    let p = (v - 1) as usize;
    let c = s[p as int] as int;
    let slot = st.ptr[c] - 1;
    let st2 = induce_s_step(s, st, r);
    let w2 = st2.slots;
    lemma_bucket_layout(s, c);
    assert(l_end(s, c) <= st.ptr[c] <= bucket_end(s, c));
    assert(w2[slot] == p);
    assert forall|i: int, j: int|
        #[trigger] s_live(s, st2, i) && #[trigger] s_live(s, st2, j) && i != j implies w2[i]
            != w2[j] by {
        if i != slot && j != slot {
            assert(s_live(s, st, i) && s_live(s, st, j));
        } else if i == slot {
            assert(s_live(s, st, j));
            if w[j] == p {
                assert(st.ptr[c] <= j < bucket_end(s, c));
            }
        } else {
            assert(s_live(s, st, i));
            if w[i] == p {
                assert(st.ptr[c] <= i < bucket_end(s, c));
            }
        }
    }
    assert forall|r2: int|
        r <= r2 < n && #[trigger] s_live(s, st2, r2) && w2[r2] != 0 && !is_l(
            s,
            w2[r2] - 1,
        ) implies exists|i: int| #[trigger] s_live(s, st2, i) && w2[i] == w2[r2] - 1 by {
        assert(s_live(s, st, r2));
        if r2 == r {
            assert(s_live(s, st2, slot) && w2[slot] == w2[r2] - 1);
        } else {
            let i = choose|i: int| #[trigger] s_live(s, st, i) && w[i] == w[r2] - 1;
            assert(s_live(s, st2, i) && w2[i] == w2[r2] - 1);
        }
    }
}

/// What a writing step of the right-to-left scan rests on: the slot
/// scanned is live, the slot written lies before it in the type-S part of
/// its bucket and is not live, and liveness changes by that slot alone.
pub proof fn lemma_s_write_facts(s: Seq<usize>, sigma: int, st: Work, r: int)
    requires
        is_text(s, sigma),
        0 <= r < s.len(),
        induce_s_inv(s, sigma, st, r + 1),
        s_writes(s, st, r),
    ensures
        ({
            let c = s[st.slots[r] - 1] as int;
            &&& s_live(s, st, r)
            &&& 0 < c < sigma
            &&& l_end(s, c) < st.ptr[c] <= bucket_end(s, c)
            &&& 0 < st.ptr[c] - 1 < r
            &&& !s_live(s, st, st.ptr[c] - 1)
            &&& s_step_live(s, st, induce_s_step(s, st, r), st.ptr[c] - 1)
        }),
{
    let c = s[st.slots[r] - 1] as int;
    lemma_s_scan_live(s, sigma, st, r + 1, r);
    lemma_s_write_fresh(s, sigma, st, r);
    lemma_s_write_room(s, sigma, st, r);
    lemma_s_write_slot(s, sigma, st, r);
    lemma_s_step_live(s, sigma, st, r);
    assert(l_end(s, c) <= st.ptr[c] <= bucket_end(s, c));
}

/// A step of the right-to-left scan that writes nothing keeps the
/// invariant.
proof fn lemma_s_skip_keeps(s: Seq<usize>, sigma: int, st: Work, r: int)
    requires
        0 <= r < s.len(),
        induce_s_inv(s, sigma, st, r + 1),
        !s_writes(s, st, r),
    ensures
        induce_s_inv(s, sigma, st, r),
{
    let w = st.slots;
    assert forall|c: int, i: int|
        #![trigger st.ptr[c], st.slots[i]]
        1 <= c < sigma && st.ptr[c] <= i < bucket_end(s, c) implies tail_slot(s, st, r, c, i) by {
        assert(tail_slot(s, st, r + 1, c, i));
        let r2 = choose|r2: int|
            r + 1 <= r2 < s.len() && #[trigger] s_live(s, st, r2) && w[r2] == w[i] + 1;
        assert(r <= r2 < s.len() && s_live(s, st, r2) && w[r2] == w[i] + 1);
    }
}

/// One step of the right-to-left scan keeps `induce_s_inv`; any position
/// in the slot scanned is one of the text, and where the step writes, the
/// tail of the bucket has a free slot.
pub proof fn lemma_induce_s_step(s: Seq<usize>, sigma: int, st: Work, r: int)
    requires
        is_text(s, sigma),
        0 <= r < s.len(),
        induce_s_inv(s, sigma, st, r + 1),
    ensures
        induce_s_inv(s, sigma, induce_s_step(s, st, r), r),
        st.slots[r] != INVALID ==> st.slots[r] < s.len(),
        s_writes(s, st, r) ==> {
            let c = s[st.slots[r] - 1] as int;
            0 < c < sigma && 0 <= l_end(s, c) < st.ptr[c] <= s.len()
        },
{
    assert(st.slots[r] == INVALID || st.slots[r] < s.len());
    if s_writes(s, st, r) {
        let c = s[st.slots[r] - 1] as int;
        lemma_s_scan_live(s, sigma, st, r + 1, r);
        lemma_s_write_fresh(s, sigma, st, r);
        lemma_s_write_room(s, sigma, st, r);
        lemma_s_write_slot(s, sigma, st, r);
        lemma_s_step_live(s, sigma, st, r);
        lemma_s_write_keeps_parts(s, sigma, st, r);
        lemma_s_write_keeps_tails(s, sigma, st, r);
        lemma_s_write_keeps_closed(s, sigma, st, r);
        lemma_bucket_layout(s, c);
        assert(l_end(s, c) <= st.ptr[c] <= bucket_end(s, c));
    } else {
        lemma_s_skip_keeps(s, sigma, st, r);
    }
}

/// `induce_s_inv` holds of every state of the right-to-left scan.
pub proof fn lemma_induced_s(s: Seq<usize>, sigma: int, lms: Seq<usize>, k: int)
    requires
        is_text(s, sigma),
        is_lms_list(ls_types(s), lms),
        0 <= k <= s.len(),
    ensures
        induce_s_inv(
            s,
            sigma,
            induced_s(s, sigma, after_l_scan(s, sigma, lms).slots, k),
            s.len() - k,
        ),
    decreases k,
{
    let n = s.len() as int;
    let st1 = after_l_scan(s, sigma, lms);
    if k == 0 {
        lemma_induced_l(s, sigma, lms, n);
        lemma_induce_s_start(s, sigma, placed(s, sigma, lms, 0).ptr, st1);
    } else {
        lemma_induced_s(s, sigma, lms, k - 1);
        lemma_induce_s_step(s, sigma, induced_s(s, sigma, st1.slots, k - 1), n - k);
    }
}

/// Once the right-to-left scan is through, every position sits in a live
/// slot.
pub proof fn lemma_s_found(s: Seq<usize>, sigma: int, st: Work, p: int) -> (i: int)
    requires
        is_text(s, sigma),
        s.len() >= 2,
        induce_s_inv(s, sigma, st, 0),
        0 <= p < s.len(),
    ensures
        s_live(s, st, i),
        st.slots[i] == p,
    decreases s.len() - p,
{
    let n = s.len() as int;
    let w = st.slots;
    lemma_text_symbols(s, sigma);
    if is_l(s, p) {
        let i = choose|i: int|
            bucket_start(s, s[p] as int) <= i < l_end(s, s[p] as int) && #[trigger] w[i] == p;
        lemma_bucket_layout(s, s[p] as int);
        i
    } else if p == n - 1 {
        0
    } else {
        let i1 = lemma_s_found(s, sigma, st, p + 1);
        assert(w[i1] != 0 && !is_l(s, w[i1] - 1));
        choose|i: int| #[trigger] s_live(s, st, i) && w[i] == w[i1] - 1
    }
}

/// Once the right-to-left scan is through, a type-S position other than
/// the last sits behind the tail pointer of its bucket.
proof fn lemma_s_found_in_tail(s: Seq<usize>, sigma: int, st: Work, c: int, p: int) -> (i: int)
    requires
        is_text(s, sigma),
        s.len() >= 2,
        induce_s_inv(s, sigma, st, 0),
        1 <= c < sigma,
        0 <= p < s.len(),
        in_class(s, Class::EqualS, c, p),
    ensures
        st.ptr[c] <= i < bucket_end(s, c),
        st.slots[i] == p,
{
    lemma_s_found(s, sigma, st, p)
}

/// Once the right-to-left scan is through, the type-S part of every
/// bucket but the sentinel's is filled by the scan.
proof fn lemma_s_tails_full(s: Seq<usize>, sigma: int, st: Work, c: int)
    requires
        is_text(s, sigma),
        s.len() >= 2,
        induce_s_inv(s, sigma, st, 0),
        1 <= c < sigma,
    ensures
        st.ptr[c] == l_end(s, c),
{
    let w = st.slots;
    lemma_bucket_layout(s, c);
    assert(l_end(s, c) <= st.ptr[c] <= bucket_end(s, c));
    assert forall|p: int| 0 <= p < s.len() && #[trigger] in_class(s, Class::EqualS, c, p) implies exists|
        i: int,
    |
        st.ptr[c] <= i < bucket_end(s, c) && #[trigger] w[i] == p by {
        let i = lemma_s_found_in_tail(s, sigma, st, c, p);
    }
    lemma_slots_cover(s, Class::EqualS, c, w, st.ptr[c], bucket_end(s, c));
}

/// Once the right-to-left scan is through, every slot is live.
pub proof fn lemma_all_live(s: Seq<usize>, sigma: int, lms: Seq<usize>)
    requires
        is_text(s, sigma),
        is_lms_list(ls_types(s), lms),
        s.len() >= 2,
    ensures
        induce_s_inv(s, sigma, after_s_scan(s, sigma, lms), 0),
        forall|i: int| 0 <= i < s.len() ==> #[trigger] s_live(s, after_s_scan(s, sigma, lms), i),
{
    let n = s.len() as int;
    let st = after_s_scan(s, sigma, lms);
    let w = st.slots;
    lemma_induced_s(s, sigma, lms, n);
    lemma_text_symbols(s, sigma);
    lemma_sentinel_bucket(s, sigma);
    assert forall|i: int| 0 <= i < n implies #[trigger] s_live(s, st, i) by {
        let c0 = lemma_slot_bucket(s, sigma, i);
        lemma_bucket_layout(s, c0);
        if i < l_end(s, c0) {
            assert(w[i] != INVALID && s[w[i] as int] == c0 && is_l(s, w[i] as int));
            assert(w[i] == INVALID || w[i] < n);
        } else if c0 >= 1 {
            lemma_s_tails_full(s, sigma, st, c0);
            lemma_tail_live(s, sigma, st, 0, c0, i);
        } else {
            assert(!is_l(s, n - 1));
        }
    }
}

/// What the right-to-left scan needs to know before it scans slot `r`:
/// a filled slot holds a position of the text, and where the scan writes,
/// the tail pointer of the bucket has a slot of the work array before it.
pub proof fn lemma_s_scan_safe(s: Seq<usize>, sigma: int, lms: Seq<usize>, r: int)
    requires
        is_text(s, sigma),
        is_lms_list(ls_types(s), lms),
        0 <= r < s.len(),
    ensures
        ({
            let st = induced_s(s, sigma, after_l_scan(s, sigma, lms).slots, s.len() - r - 1);
            &&& st.slots.len() == s.len()
            &&& st.ptr.len() == sigma
            &&& st.slots[r] != INVALID ==> st.slots[r] < s.len()
            &&& s_writes(s, st, r) ==> 0 <= s[st.slots[r] - 1] < sigma && 0 < st.ptr[s[st.slots[r]
                - 1] as int] <= s.len()
            &&& induced_s(s, sigma, after_l_scan(s, sigma, lms).slots, s.len() - r)
                == induce_s_step(s, st, r)
        }),
{
    let st1 = after_l_scan(s, sigma, lms);
    let st = induced_s(s, sigma, st1.slots, s.len() - r - 1);
    lemma_induced_s(s, sigma, lms, s.len() - r - 1);
    lemma_induce_s_step(s, sigma, st, r);
}

/// Whatever the right-to-left scan leaves in a slot is a position of the
/// text, unless the slot is empty.
pub proof fn lemma_slots_in_range(s: Seq<usize>, sigma: int, lms: Seq<usize>)
    requires
        is_text(s, sigma),
        is_lms_list(ls_types(s), lms),
    ensures
        after_s_scan(s, sigma, lms).slots.len() == s.len(),
        forall|i: int|
            0 <= i < s.len() ==> #[trigger] after_s_scan(s, sigma, lms).slots[i] == INVALID
                || after_s_scan(s, sigma, lms).slots[i] < s.len(),
{
    lemma_induced_s(s, sigma, lms, s.len() as int);
}

} // verus!
