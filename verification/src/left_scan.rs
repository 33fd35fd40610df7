//! The left-to-right scan of the induced sort: what it keeps true, and
//! that it brings every position of type L into its bucket.

use crate::buckets::{
    bucket_end, bucket_start, in_class, l_end, lemma_bucket_layout, lemma_buckets_ordered,
    lemma_distinct_members, lemma_members_covered, Class,
};
use crate::induce::{after_placing, induce_l_step, induced_l, l_writes, placed, Work, INVALID};
use crate::placing::{lemma_placed, placed_slot};
use crate::text::{
    is_l, is_lms, is_lms_list, is_text, lemma_l_successor, lemma_lms_facts, lemma_text_symbols,
    lms_in, ls_types,
};
use vstd::prelude::*;

verus! {

/// What holds of a filled slot `i` during the left-to-right scan: a
/// position of type L sits in the filled head of its bucket and was put
/// there when its successor was scanned; any other is an LMS position in
/// the tail of its bucket.
pub open spec fn l_slot(s: Seq<usize>, tails: Seq<int>, st: Work, r: int, i: int) -> bool {
    let q = st.slots[i];
    &&& q < s.len()
    &&& if is_l(s, q as int) {
        &&& bucket_start(s, s[q as int] as int) <= i < st.ptr[s[q as int] as int]
        &&& exists|r2: int| 0 <= r2 < r && #[trigger] st.slots[r2] == q + 1
    } else {
        &&& is_lms(s, q as int)
        &&& tails[s[q as int] as int] <= i < bucket_end(s, s[q as int] as int)
    }
}

/// No position sits in two slots.
pub open spec fn distinct_slots(w: Seq<usize>) -> bool {
    forall|i: int, j: int|
        0 <= i < j < w.len() && #[trigger] w[i] != INVALID ==> w[i] != #[trigger] w[j]
}

/// Every LMS position sits in some slot.
pub open spec fn lms_present(s: Seq<usize>, w: Seq<usize>) -> bool {
    forall|q: int|
        #[trigger] is_lms(s, q) ==> exists|i: int| 0 <= i < w.len() && #[trigger] w[i] == q
}

/// The head pointers stay within the type-L parts of their buckets, and
/// the tails the placing left behind within the type-S parts.
pub open spec fn l_bounds(s: Seq<usize>, sigma: int, tails: Seq<int>, st: Work) -> bool {
    &&& st.slots.len() == s.len()
    &&& st.ptr.len() == sigma
    &&& tails.len() == sigma
    &&& forall|c: int| 0 <= c < sigma ==> bucket_start(s, c) <= #[trigger] st.ptr[c] <= l_end(s, c)
    &&& forall|c: int| 0 <= c < sigma ==> l_end(s, c) <= #[trigger] tails[c] <= bucket_end(s, c)
}

/// Every filled slot satisfies `l_slot`.
pub open spec fn l_slots(s: Seq<usize>, tails: Seq<int>, st: Work, r: int) -> bool {
    forall|i: int|
        0 <= i < s.len() && #[trigger] st.slots[i] != INVALID ==> l_slot(s, tails, st, r, i)
}

/// The slots from the start of a bucket up to its head pointer hold
/// type-L positions of the bucket's symbol.
pub open spec fn l_heads(s: Seq<usize>, sigma: int, st: Work) -> bool {
    forall|c: int, i: int|
        #![trigger st.ptr[c], st.slots[i]]
        0 <= c < sigma && bucket_start(s, c) <= i < st.ptr[c] ==> st.slots[i] != INVALID
            && s[st.slots[i] as int] == c && is_l(s, st.slots[i] as int)
}

/// Whatever the scanned slots call for has been induced: the type-L
/// predecessor of a position in one of the first `r` slots sits in some
/// slot.
pub open spec fn l_closed(s: Seq<usize>, st: Work, r: int) -> bool {
    forall|r2: int|
        0 <= r2 < r && #[trigger] st.slots[r2] != INVALID && st.slots[r2] != 0 && is_l(
            s,
            st.slots[r2] - 1,
        ) ==> exists|i: int| 0 <= i < s.len() && #[trigger] st.slots[i] == st.slots[r2] - 1
}

/// What the left-to-right scan keeps true after `r` slots.
pub open spec fn induce_l_inv(
    s: Seq<usize>,
    sigma: int,
    tails: Seq<int>,
    st: Work,
    r: int,
) -> bool {
    &&& l_bounds(s, sigma, tails, st)
    &&& l_slots(s, tails, st, r)
    &&& l_heads(s, sigma, st)
    &&& distinct_slots(st.slots)
    &&& l_closed(s, st, r)
    &&& lms_present(s, st.slots)
}

/// The state in which the left-to-right scan starts satisfies its
/// invariant.
pub proof fn lemma_induce_l_start(s: Seq<usize>, sigma: int, lms: Seq<usize>)
    requires
        is_text(s, sigma),
        is_lms_list(ls_types(s), lms),
    ensures
        induce_l_inv(
            s,
            sigma,
            placed(s, sigma, lms, 0).ptr,
            induced_l(s, sigma, placed(s, sigma, lms, 0).slots, 0),
            0,
        ),
{
    let n = s.len() as int;
    let st0 = placed(s, sigma, lms, 0);
    let st = induced_l(s, sigma, st0.slots, 0);
    lemma_placed(s, sigma, lms, 0);
    assert forall|c: int| 0 <= c < sigma implies bucket_start(s, c) <= #[trigger] st.ptr[c] <= l_end(
        s,
        c,
    ) by {
        lemma_bucket_layout(s, c);
    }
    assert forall|i: int| 0 <= i < n && #[trigger] st.slots[i] != INVALID implies l_slot(
        s,
        st0.ptr,
        st,
        0,
        i,
    ) by {
        assert(placed_slot(s, lms, 0, st0, i));
        lemma_lms_facts(s, st.slots[i] as int);
    }
    assert forall|q: int| #[trigger] is_lms(s, q) implies exists|i: int|
        0 <= i < n && #[trigger] st.slots[i] == q by {
        assert(lms_in(ls_types(s), q));
        let j = choose|j: int| 0 <= j < lms.len() && #[trigger] lms[j] == q;
        let i = choose|i: int| 0 <= i < n && #[trigger] st0.slots[i] == lms[j];
        assert(st.slots[i] == q);
    }
}

/// Where the left-to-right scan writes, the position written is in no
/// slot yet.
proof fn lemma_l_write_fresh(s: Seq<usize>, tails: Seq<int>, st: Work, r: int)
    requires
        0 <= r < s.len() == st.slots.len(),
        l_slots(s, tails, st, r),
        distinct_slots(st.slots),
        l_writes(s, st, r),
    ensures
        forall|i: int| 0 <= i < s.len() ==> #[trigger] st.slots[i] != st.slots[r] - 1,
{
    let w = st.slots;
    let p = w[r] - 1;
    assert forall|i: int| 0 <= i < s.len() implies #[trigger] w[i] != p by {
        if w[i] == p {
            assert(l_slot(s, tails, st, r, i));
            let r2 = choose|r2: int| 0 <= r2 < r && #[trigger] w[r2] == p + 1;
            assert(w[r2] == w[r]);
        }
    }
}

/// Where the left-to-right scan writes, the head of the bucket has room.
proof fn lemma_l_write_room(s: Seq<usize>, sigma: int, tails: Seq<int>, st: Work, r: int)
    requires
        is_text(s, sigma),
        0 <= r < s.len(),
        l_bounds(s, sigma, tails, st),
        l_slots(s, tails, st, r),
        l_heads(s, sigma, st),
        distinct_slots(st.slots),
        l_writes(s, st, r),
    ensures
        st.slots[r] < s.len(),
        0 <= s[st.slots[r] - 1] < sigma,
        st.ptr[s[st.slots[r] - 1] as int] < l_end(s, s[st.slots[r] - 1] as int),
{
    let n = s.len() as int;
    let w = st.slots;
    let v = w[r];
    assert(l_slot(s, tails, st, r, r));
    let p = (v - 1) as usize;
    let c = s[p as int] as int;
    let slot = st.ptr[c];
    lemma_text_symbols(s, sigma);
    lemma_bucket_layout(s, c);
    assert(bucket_start(s, c) <= st.ptr[c] <= l_end(s, c));
    lemma_l_write_fresh(s, tails, st, r);
    let head = w.subrange(bucket_start(s, c), slot);
    let q = head.push(p);
    assert forall|j: int| 0 <= j < q.len() implies (#[trigger] q[j]) < n && in_class(
        s,
        Class::EqualL,
        c,
        q[j] as int,
    ) by {
        if j < head.len() {
            let i = bucket_start(s, c) + j;
            assert(q[j] == w[i]);
            assert(w[i] != INVALID && s[w[i] as int] == c && is_l(s, w[i] as int));
            assert(l_slot(s, tails, st, r, i));
        }
    }
    assert forall|a: int, b: int| 0 <= a < q.len() && 0 <= b < q.len() && a != b implies q[a]
        != q[b] by {
        let ia = bucket_start(s, c) + a;
        let ib = bucket_start(s, c) + b;
        if a < head.len() {
            assert(w[ia] != INVALID && s[w[ia] as int] == c);
            assert(q[a] == w[ia]);
        }
        if b < head.len() {
            assert(w[ib] != INVALID && s[w[ib] as int] == c);
            assert(q[b] == w[ib]);
        }
    }
    lemma_distinct_members(s, Class::EqualL, c, q, n);
}

/// A filled slot lies in the bucket of the symbol of the position it
/// holds: in the head if that is of type L, in the tail otherwise.
pub proof fn lemma_l_slot_place(
    s: Seq<usize>,
    sigma: int,
    tails: Seq<int>,
    st: Work,
    r: int,
    i: int,
)
    requires
        is_text(s, sigma),
        l_bounds(s, sigma, tails, st),
        l_slots(s, tails, st, r),
        0 <= i < s.len(),
        st.slots[i] != INVALID,
    ensures
        st.slots[i] < s.len(),
        0 <= s[st.slots[i] as int] < sigma,
        bucket_start(s, s[st.slots[i] as int] as int) <= i < bucket_end(
            s,
            s[st.slots[i] as int] as int,
        ),
        is_l(s, st.slots[i] as int) ==> i < st.ptr[s[st.slots[i] as int] as int],
        !is_l(s, st.slots[i] as int) ==> l_end(s, s[st.slots[i] as int] as int) <= i,
{
    assert(l_slot(s, tails, st, r, i));
    lemma_text_symbols(s, sigma);
    let c = s[st.slots[i] as int] as int;
    lemma_bucket_layout(s, c);
    assert(bucket_start(s, c) <= st.ptr[c] <= l_end(s, c));
    assert(l_end(s, c) <= tails[c] <= bucket_end(s, c));
}

/// Where the left-to-right scan writes, the slot it writes to is empty
/// and lies beyond the slot scanned.
proof fn lemma_l_write_slot(s: Seq<usize>, sigma: int, tails: Seq<int>, st: Work, r: int)
    requires
        is_text(s, sigma),
        0 <= r < s.len(),
        l_bounds(s, sigma, tails, st),
        l_slots(s, tails, st, r),
        l_writes(s, st, r),
        st.slots[r] < s.len(),
        0 <= s[st.slots[r] - 1] < sigma,
        st.ptr[s[st.slots[r] - 1] as int] < l_end(s, s[st.slots[r] - 1] as int),
    ensures
        r < st.ptr[s[st.slots[r] - 1] as int] < s.len(),
        st.slots[st.ptr[s[st.slots[r] - 1] as int]] == INVALID,
{
    let w = st.slots;
    let v = w[r];
    let p = v - 1;
    let c = s[p] as int;
    let slot = st.ptr[c];
    lemma_bucket_layout(s, c);
    assert(bucket_start(s, c) <= st.ptr[c] <= l_end(s, c));
    if w[slot] != INVALID {
        lemma_l_slot_place(s, sigma, tails, st, r, slot);
        let c2 = s[w[slot] as int] as int;
        if c2 < c {
            lemma_buckets_ordered(s, c2, c);
        } else if c2 > c {
            lemma_buckets_ordered(s, c, c2);
        }
        assert(false);
    }
    lemma_l_successor(s, p);
    lemma_l_slot_place(s, sigma, tails, st, r, r);
    let cv = s[v as int] as int;
    if cv < c {
        lemma_buckets_ordered(s, cv, c);
    }
}

/// A step of the left-to-right scan that writes nothing keeps the
/// invariant.
proof fn lemma_l_skip_keeps(s: Seq<usize>, sigma: int, tails: Seq<int>, st: Work, r: int)
    requires
        0 <= r < s.len(),
        induce_l_inv(s, sigma, tails, st, r),
        !l_writes(s, st, r),
    ensures
        induce_l_inv(s, sigma, tails, st, r + 1),
{
    let w = st.slots;
    assert forall|i: int| 0 <= i < s.len() && #[trigger] w[i] != INVALID implies l_slot(
        s,
        tails,
        st,
        r + 1,
        i,
    ) by {
        assert(l_slot(s, tails, st, r, i));
        if is_l(s, w[i] as int) {
            let r2 = choose|r2: int| 0 <= r2 < r && #[trigger] w[r2] == w[i] + 1;
            assert(0 <= r2 < r + 1 && w[r2] == w[i] + 1);
        }
    }
}

/// A writing step keeps `l_slots`.
proof fn lemma_l_write_keeps_slots(
    s: Seq<usize>,
    sigma: int,
    tails: Seq<int>,
    st: Work,
    r: int,
)
    requires
        is_text(s, sigma),
        0 <= r < s.len(),
        l_bounds(s, sigma, tails, st),
        l_slots(s, tails, st, r),
        l_writes(s, st, r),
        0 <= s[st.slots[r] - 1] < sigma,
        r < st.ptr[s[st.slots[r] - 1] as int] < s.len(),
        st.slots[st.ptr[s[st.slots[r] - 1] as int]] == INVALID,
    ensures
        l_slots(s, tails, induce_l_step(s, st, r), r + 1),
{
    let n = s.len() as int;
    let w = st.slots;
    let v = w[r];
    let p = (v - 1) as usize;
    let c = s[p as int] as int;
    let slot = st.ptr[c];
    let st2 = induce_l_step(s, st, r);
    let w2 = st2.slots;
    lemma_l_successor(s, p as int);
    lemma_bucket_layout(s, c);
    assert(bucket_start(s, c) <= st.ptr[c] <= l_end(s, c));
    assert(w2[r] == v);
    assert forall|i: int| 0 <= i < n && #[trigger] w2[i] != INVALID implies l_slot(
        s,
        tails,
        st2,
        r + 1,
        i,
    ) by {
        if i == slot {
            assert(0 <= r < r + 1 && w2[r] == w2[i] + 1);
        } else {
            assert(w2[i] == w[i]);
            assert(l_slot(s, tails, st, r, i));
            if is_l(s, w[i] as int) {
                let r2 = choose|r2: int| 0 <= r2 < r && #[trigger] w[r2] == w[i] + 1;
                assert(w2[r2] == w[r2]);
                assert(0 <= r2 < r + 1 && w2[r2] == w2[i] + 1);
                let ci = s[w[i] as int] as int;
                assert(st.ptr[ci] <= st2.ptr[ci]);
            }
        }
    }
}

/// A writing step keeps `l_bounds`, `l_heads` and `distinct_slots`.
proof fn lemma_l_write_keeps_heads(
    s: Seq<usize>,
    sigma: int,
    tails: Seq<int>,
    st: Work,
    r: int,
)
    requires
        is_text(s, sigma),
        0 <= r < s.len(),
        l_bounds(s, sigma, tails, st),
        l_heads(s, sigma, st),
        distinct_slots(st.slots),
        l_writes(s, st, r),
        st.slots[r] < s.len(),
        0 <= s[st.slots[r] - 1] < sigma,
        st.ptr[s[st.slots[r] - 1] as int] < l_end(s, s[st.slots[r] - 1] as int),
        st.slots[st.ptr[s[st.slots[r] - 1] as int]] == INVALID,
        forall|i: int| 0 <= i < s.len() ==> #[trigger] st.slots[i] != st.slots[r] - 1,
    ensures
        l_bounds(s, sigma, tails, induce_l_step(s, st, r)),
        l_heads(s, sigma, induce_l_step(s, st, r)),
        distinct_slots(induce_l_step(s, st, r).slots),
{
    let n = s.len() as int;
    let w = st.slots;
    let v = w[r];
    let p = (v - 1) as usize;
    let c = s[p as int] as int;
    let slot = st.ptr[c];
    let st2 = induce_l_step(s, st, r);
    let w2 = st2.slots;
    lemma_l_successor(s, p as int);
    lemma_bucket_layout(s, c);
    assert(bucket_start(s, c) <= st.ptr[c] <= l_end(s, c));
    assert forall|c3: int, i: int|
        #![trigger st2.ptr[c3], w2[i]]
        0 <= c3 < sigma && bucket_start(s, c3) <= i < st2.ptr[c3] implies w2[i] != INVALID && s[w2[i] as int]
            == c3 && is_l(s, w2[i] as int) by {
        lemma_bucket_layout(s, c3);
        assert(bucket_start(s, c3) <= st.ptr[c3] <= l_end(s, c3));
        if i != slot {
            assert(w[i] != INVALID && s[w[i] as int] == c3 && is_l(s, w[i] as int));
        } else if c3 != c {
            assert(w[i] != INVALID && s[w[i] as int] == c3 && is_l(s, w[i] as int));
        }
    }
    assert forall|c3: int| 0 <= c3 < sigma implies bucket_start(s, c3) <= #[trigger] st2.ptr[c3]
        <= l_end(s, c3) by {
        assert(bucket_start(s, c3) <= st.ptr[c3] <= l_end(s, c3));
    }
    assert forall|i: int, j: int|
        0 <= i < j < n && #[trigger] w2[i] != INVALID implies w2[i] != #[trigger] w2[j] by {
        if i != slot && j != slot {
            assert(w[i] != w[j]);
        } else if i == slot {
            assert(w[j] != p);
        } else {
            assert(w[i] != p);
        }
    }
}

/// A writing step keeps `l_closed` and `lms_present`.
proof fn lemma_l_write_keeps_closed(s: Seq<usize>, sigma: int, st: Work, r: int)
    requires
        is_text(s, sigma),
        0 <= r < s.len() == st.slots.len(),
        l_closed(s, st, r),
        lms_present(s, st.slots),
        l_writes(s, st, r),
        0 <= s[st.slots[r] - 1] < sigma == st.ptr.len(),
        r < st.ptr[s[st.slots[r] - 1] as int] < s.len(),
        st.slots[st.ptr[s[st.slots[r] - 1] as int]] == INVALID,
    ensures
        l_closed(s, induce_l_step(s, st, r), r + 1),
        lms_present(s, induce_l_step(s, st, r).slots),
{
    let n = s.len() as int;
    let w = st.slots;
    let v = w[r];
    let p = (v - 1) as usize;
    let c = s[p as int] as int;
    let slot = st.ptr[c];
    let st2 = induce_l_step(s, st, r);
    let w2 = st2.slots;
    assert(w2[r] == v);
    assert forall|r2: int|
        0 <= r2 < r + 1 && #[trigger] w2[r2] != INVALID && w2[r2] != 0 && is_l(
            s,
            w2[r2] - 1,
        ) implies exists|i: int| 0 <= i < n && #[trigger] w2[i] == w2[r2] - 1 by {
        if r2 == r {
            assert(w2[slot] == w2[r2] - 1);
        } else {
            assert(w2[r2] == w[r2]);
            let i = choose|i: int| 0 <= i < n && #[trigger] w[i] == w[r2] - 1;
            lemma_l_successor(s, w[r2] - 1);
            assert(w2[i] == w2[r2] - 1);
        }
    }
    assert forall|qq: int| #[trigger] is_lms(s, qq) implies exists|i: int|
        0 <= i < n && #[trigger] w2[i] == qq by {
        let i = choose|i: int| 0 <= i < n && #[trigger] w[i] == qq;
        lemma_lms_facts(s, qq);
        assert(w2[i] == qq);
    }
}

/// One step of the left-to-right scan keeps `induce_l_inv`; where it
/// writes, the head of the bucket has a free slot, beyond the one scanned.
pub proof fn lemma_induce_l_step(s: Seq<usize>, sigma: int, tails: Seq<int>, st: Work, r: int)
    requires
        is_text(s, sigma),
        0 <= r < s.len(),
        induce_l_inv(s, sigma, tails, st, r),
    ensures
        induce_l_inv(s, sigma, tails, induce_l_step(s, st, r), r + 1),
        st.slots[r] != INVALID ==> st.slots[r] < s.len(),
        l_writes(s, st, r) ==> {
            let c = s[st.slots[r] - 1] as int;
            0 <= c < sigma && r < st.ptr[c] < l_end(s, c) && st.slots[st.ptr[c]] == INVALID
        },
{
    if st.slots[r] != INVALID {
        assert(l_slot(s, tails, st, r, r));
    }
    if l_writes(s, st, r) {
        lemma_l_write_fresh(s, tails, st, r);
        lemma_l_write_room(s, sigma, tails, st, r);
        lemma_l_write_slot(s, sigma, tails, st, r);
        lemma_l_write_keeps_slots(s, sigma, tails, st, r);
        lemma_l_write_keeps_heads(s, sigma, tails, st, r);
        lemma_l_write_keeps_closed(s, sigma, st, r);
    } else {
        lemma_l_skip_keeps(s, sigma, tails, st, r);
    }
}

/// `induce_l_inv` holds of every state of the left-to-right scan.
pub proof fn lemma_induced_l(s: Seq<usize>, sigma: int, lms: Seq<usize>, r: int)
    requires
        is_text(s, sigma),
        is_lms_list(ls_types(s), lms),
        0 <= r <= s.len(),
    ensures
        induce_l_inv(
            s,
            sigma,
            placed(s, sigma, lms, 0).ptr,
            induced_l(s, sigma, placed(s, sigma, lms, 0).slots, r),
            r,
        ),
    decreases r,
{
    if r == 0 {
        lemma_induce_l_start(s, sigma, lms);
    } else {
        let st0 = placed(s, sigma, lms, 0);
        lemma_induced_l(s, sigma, lms, r - 1);
        lemma_induce_l_step(s, sigma, st0.ptr, induced_l(s, sigma, st0.slots, r - 1), r - 1);
    }
}

/// Once the left-to-right scan is through, a position of type L sits in
/// some slot.
pub proof fn lemma_l_found(s: Seq<usize>, sigma: int, tails: Seq<int>, st: Work, p: int) -> (i: int)
    requires
        is_text(s, sigma),
        induce_l_inv(s, sigma, tails, st, s.len() as int),
        is_l(s, p),
    ensures
        0 <= i < s.len(),
        st.slots[i] == p,
    decreases s.len() - p,
{
    let w = st.slots;
    lemma_l_successor(s, p);
    let i1 = if is_l(s, p + 1) {
        lemma_l_found(s, sigma, tails, st, p + 1)
    } else {
        assert(ls_types(s)[p] == is_l(s, p));
        assert(ls_types(s)[p + 1] == is_l(s, p + 1));
        assert(is_lms(s, p + 1));
        choose|i: int| 0 <= i < w.len() && #[trigger] w[i] == p + 1
    };
    assert(w[i1] != INVALID && w[i1] != 0 && is_l(s, w[i1] - 1));
    choose|i: int| 0 <= i < s.len() && #[trigger] w[i] == w[i1] - 1
}

/// Once the left-to-right scan is through, the type-L part of every
/// bucket is filled.
proof fn lemma_l_heads_full(s: Seq<usize>, sigma: int, tails: Seq<int>, st: Work, c: int)
    requires
        is_text(s, sigma),
        induce_l_inv(s, sigma, tails, st, s.len() as int),
        0 <= c < sigma,
    ensures
        st.ptr[c] == l_end(s, c),
{
    let n = s.len() as int;
    let w = st.slots;
    lemma_bucket_layout(s, c);
    assert(bucket_start(s, c) <= st.ptr[c] <= l_end(s, c));
    let q = w.subrange(bucket_start(s, c), st.ptr[c]);
    assert forall|p: int| 0 <= p < n && #[trigger] in_class(s, Class::EqualL, c, p) implies exists|
        j: int,
    |
        0 <= j < q.len() && #[trigger] q[j] == p by {
        let i = lemma_l_found(s, sigma, tails, st, p);
        assert(l_slot(s, tails, st, n, i));
        assert(q[i - bucket_start(s, c)] == w[i]);
    }
    lemma_members_covered(s, Class::EqualL, c, q, n);
}

/// Once the left-to-right scan is through, every head pointer stands at
/// the end of the type-L part of its bucket.
pub proof fn lemma_l_all_full(s: Seq<usize>, sigma: int, tails: Seq<int>, st: Work)
    requires
        is_text(s, sigma),
        induce_l_inv(s, sigma, tails, st, s.len() as int),
    ensures
        forall|c: int| 0 <= c < sigma ==> #[trigger] st.ptr[c] == l_end(s, c),
{
    assert forall|c: int| 0 <= c < sigma implies #[trigger] st.ptr[c] == l_end(s, c) by {
        lemma_l_heads_full(s, sigma, tails, st, c);
    }
}

/// What the left-to-right scan needs to know before it scans slot `r`:
/// a filled slot holds a position of the text, and where the scan writes,
/// the head pointer of the bucket points at a slot of the work array.
pub proof fn lemma_l_scan_safe(s: Seq<usize>, sigma: int, lms: Seq<usize>, r: int)
    requires
        is_text(s, sigma),
        is_lms_list(ls_types(s), lms),
        0 <= r < s.len(),
    ensures
        ({
            let st = induced_l(s, sigma, after_placing(s, sigma, lms).slots, r);
            &&& st.slots.len() == s.len()
            &&& st.ptr.len() == sigma
            &&& st.slots[r] != INVALID ==> st.slots[r] < s.len()
            &&& l_writes(s, st, r) ==> 0 <= s[st.slots[r] - 1] < sigma && 0 <= st.ptr[s[st.slots[r]
                - 1] as int] < s.len()
            &&& induced_l(s, sigma, after_placing(s, sigma, lms).slots, r + 1) == induce_l_step(
                s,
                st,
                r,
            )
        }),
{
    let st0 = after_placing(s, sigma, lms);
    let st = induced_l(s, sigma, st0.slots, r);
    lemma_induced_l(s, sigma, lms, r);
    lemma_induce_l_step(s, sigma, st0.ptr, st, r);
    if l_writes(s, st, r) {
        let c = s[st.slots[r] - 1] as int;
        lemma_bucket_layout(s, c);
        assert(bucket_start(s, c) <= st.ptr[c] <= l_end(s, c));
    }
}

} // verus!
