//! Placing the LMS positions: what the first phase of the induced sort
//! keeps true.

use crate::buckets::{
    bucket_end, in_class, l_end, lemma_bucket_layout, lemma_buckets_ordered, lemma_distinct_members,
    Class,
};
use crate::induce::{place, placed, Work, INVALID};
use crate::text::{
    is_lms, is_lms_list, is_text, lemma_lms_facts, lemma_text_symbols, lms_in, ls_types,
};
use vstd::prelude::*;

verus! {

/// What holds of a filled slot `i` while LMS positions are placed.
pub open spec fn placed_slot(s: Seq<usize>, lms: Seq<usize>, k: int, st: Work, i: int) -> bool {
    let q = st.slots[i];
    &&& q < s.len()
    &&& is_lms(s, q as int)
    &&& st.ptr[s[q as int] as int] <= i < bucket_end(s, s[q as int] as int)
    &&& k < lms.len()
    &&& q >= lms[k]
}

/// What placing the positions `lms[k..]` keeps true: each sits in the
/// type-S part of its symbol's bucket, the filled slots of a bucket are
/// those from its pointer on, and no position sits in two slots.
pub open spec fn place_inv(s: Seq<usize>, sigma: int, lms: Seq<usize>, k: int, st: Work) -> bool {
    &&& st.slots.len() == s.len()
    &&& st.ptr.len() == sigma
    &&& forall|c: int| 0 <= c < sigma ==> l_end(s, c) <= #[trigger] st.ptr[c] <= bucket_end(s, c)
    &&& forall|i: int|
        0 <= i < s.len() && #[trigger] st.slots[i] != INVALID ==> placed_slot(s, lms, k, st, i)
    &&& forall|c: int, i: int|
        #![trigger st.ptr[c], st.slots[i]]
        0 <= c < sigma && st.ptr[c] <= i < bucket_end(s, c) ==> st.slots[i] != INVALID
            && s[st.slots[i] as int] == c
    &&& forall|i: int, j: int|
        0 <= i < j < s.len() && #[trigger] st.slots[i] != INVALID ==> st.slots[i]
            != #[trigger] st.slots[j]
    &&& forall|j: int|
        k <= j < lms.len() ==> exists|i: int|
            0 <= i < s.len() && #[trigger] st.slots[i] == #[trigger] lms[j]
}

/// Placing one more LMS position keeps `place_inv`, and there is room for
/// it in the type-S part of its bucket.
pub proof fn lemma_place_step(s: Seq<usize>, sigma: int, lms: Seq<usize>, k: int, st: Work)
    requires
        is_text(s, sigma),
        is_lms_list(ls_types(s), lms),
        0 < k <= lms.len(),
        place_inv(s, sigma, lms, k, st),
    ensures
        place_inv(s, sigma, lms, k - 1, place(s, st, lms[k - 1])),
        l_end(s, s[lms[k - 1] as int] as int) < st.ptr[s[lms[k - 1] as int] as int],
        st.slots[st.ptr[s[lms[k - 1] as int] as int] - 1] == INVALID,
{
    let n = s.len() as int;
    let p = lms[k - 1];
    let c = s[p as int] as int;
    let w = st.slots;
    let st2 = place(s, st, p);
    let w2 = st2.slots;
    assert(lms_in(ls_types(s), p as int));
    lemma_lms_facts(s, p as int);
    lemma_text_symbols(s, sigma);
    assert(0 <= c < sigma);
    lemma_bucket_layout(s, c);
    // No slot holds `p` yet: what is placed comes later in the text.
    assert forall|i: int| 0 <= i < n && #[trigger] w[i] != INVALID implies w[i] > p by {
        assert(placed_slot(s, lms, k, st, i));
    }
    // The filled tail of the bucket, with `p`, counts distinct type-S
    // positions of the symbol.
    let tail = w.subrange(st.ptr[c], bucket_end(s, c));
    let q = tail.push(p);
    assert forall|j: int| 0 <= j < q.len() implies (#[trigger] q[j]) < n && in_class(
        s,
        Class::EqualS,
        c,
        q[j] as int,
    ) by {
        if j < tail.len() {
            let i = st.ptr[c] + j;
            assert(q[j] == w[i]);
            assert(w[i] != INVALID && s[w[i] as int] == c);
            assert(placed_slot(s, lms, k, st, i));
            lemma_lms_facts(s, w[i] as int);
        }
    }
    assert forall|a: int, b: int| 0 <= a < q.len() && 0 <= b < q.len() && a != b implies q[a]
        != q[b] by {
        if a < tail.len() && b < tail.len() {
            let ia = st.ptr[c] + a;
            let ib = st.ptr[c] + b;
            assert(w[ia] != INVALID && s[w[ia] as int] == c);
            assert(w[ib] != INVALID && s[w[ib] as int] == c);
            assert(q[a] == w[ia] && q[b] == w[ib]);
        } else if a < tail.len() {
            let ia = st.ptr[c] + a;
            assert(w[ia] != INVALID && s[w[ia] as int] == c);
            assert(q[a] == w[ia]);
        } else if b < tail.len() {
            let ib = st.ptr[c] + b;
            assert(w[ib] != INVALID && s[w[ib] as int] == c);
            assert(q[b] == w[ib]);
        }
    }
    lemma_distinct_members(s, Class::EqualS, c, q, n);
    let slot = st.ptr[c] - 1;
    assert(l_end(s, c) <= slot < bucket_end(s, c));
    // The slot was empty.
    if w[slot] != INVALID {
        assert(placed_slot(s, lms, k, st, slot));
        let c2 = s[w[slot] as int] as int;
        lemma_bucket_layout(s, c2);
        if c2 < c {
            lemma_buckets_ordered(s, c2, c);
        } else if c2 > c {
            lemma_buckets_ordered(s, c, c2);
        }
        assert(false);
    }
    assert forall|i: int| 0 <= i < n && #[trigger] w2[i] != INVALID implies placed_slot(
        s,
        lms,
        k - 1,
        st2,
        i,
    ) by {
        if i != slot {
            assert(placed_slot(s, lms, k, st, i));
        }
    }
    assert forall|c3: int, i: int|
        #![trigger st2.ptr[c3], w2[i]]
        0 <= c3 < sigma && st2.ptr[c3] <= i < bucket_end(s, c3) implies w2[i] != INVALID && s[w2[i] as int]
            == c3 by {
        lemma_bucket_layout(s, c3);
        assert(l_end(s, c3) <= st.ptr[c3] <= bucket_end(s, c3));
        if c3 == c {
            if i != slot {
                assert(w[i] != INVALID && s[w[i] as int] == c3);
            }
        } else {
            assert(st.ptr[c3] == st2.ptr[c3]);
            assert(w[i] != INVALID && s[w[i] as int] == c3);
        }
    }
    assert forall|j: int| k - 1 <= j < lms.len() implies exists|i: int|
        0 <= i < n && #[trigger] w2[i] == #[trigger] lms[j] by {
        if j == k - 1 {
            assert(w2[slot] == lms[j]);
        } else {
            let i = choose|i: int| 0 <= i < n && #[trigger] w[i] == lms[j];
            assert(lms_in(ls_types(s), lms[j] as int));
            assert(w2[i] == lms[j]);
        }
    }
    assert forall|c3: int| 0 <= c3 < sigma implies l_end(s, c3) <= #[trigger] st2.ptr[c3]
        <= bucket_end(s, c3) by {
        assert(l_end(s, c3) <= st.ptr[c3] <= bucket_end(s, c3));
    }
}

/// `place_inv` holds of every state of the placing phase.
pub proof fn lemma_placed(s: Seq<usize>, sigma: int, lms: Seq<usize>, k: int)
    requires
        is_text(s, sigma),
        is_lms_list(ls_types(s), lms),
        0 <= k <= lms.len(),
    ensures
        place_inv(s, sigma, lms, k, placed(s, sigma, lms, k)),
    decreases lms.len() - k,
{
    if k < lms.len() {
        lemma_placed(s, sigma, lms, k + 1);
        lemma_place_step(s, sigma, lms, k + 1, placed(s, sigma, lms, k + 1));
    } else {
        let st = placed(s, sigma, lms, k);
        assert forall|c: int| 0 <= c < sigma implies l_end(s, c) <= #[trigger] st.ptr[c]
            <= bucket_end(s, c) by {
            lemma_bucket_layout(s, c);
        }
    }
}

/// What the placing loop needs to know before it places `lms[k - 1]`:
/// the tail pointer of that position's bucket has a free slot before it.
pub proof fn lemma_place_safe(s: Seq<usize>, sigma: int, lms: Seq<usize>, k: int)
    requires
        is_text(s, sigma),
        is_lms_list(ls_types(s), lms),
        0 < k <= lms.len(),
    ensures
        placed(s, sigma, lms, k).slots.len() == s.len(),
        placed(s, sigma, lms, k).ptr.len() == sigma,
        lms[k - 1] < s.len(),
        0 <= s[lms[k - 1] as int] < sigma,
        0 < placed(s, sigma, lms, k).ptr[s[lms[k - 1] as int] as int] <= s.len(),
        placed(s, sigma, lms, k - 1) == place(s, placed(s, sigma, lms, k), lms[k - 1]),
{
    let st = placed(s, sigma, lms, k);
    let c = s[lms[k - 1] as int] as int;
    lemma_placed(s, sigma, lms, k);
    lemma_place_step(s, sigma, lms, k, st);
    assert(lms_in(ls_types(s), lms[k - 1] as int));
    lemma_text_symbols(s, sigma);
    lemma_bucket_layout(s, c);
    assert(l_end(s, c) <= st.ptr[c] <= bucket_end(s, c));
}

} // verus!
