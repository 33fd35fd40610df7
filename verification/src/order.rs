//! The order the induced sort sorts by: positions compared by the symbols
//! and types up to their next LMS position.

use crate::text::{
    is_l, is_lms, is_text, lemma_l_successor, lemma_lms_facts, lemma_next_lms, lemma_s_successor,
    lemma_sentinel_lms, ls_types, next_lms,
};
use vstd::prelude::*;

verus! {

/// Lexicographic order on sequences of numbers; a proper prefix comes
/// first.
pub open spec fn lex_le(x: Seq<int>, y: Seq<int>) -> bool
    decreases x.len(),
{
    if x.len() == 0 {
        true
    } else if y.len() == 0 {
        false
    } else if x[0] != y[0] {
        x[0] < y[0]
    } else {
        lex_le(x.drop_first(), y.drop_first())
    }
}

/// Every sequence is no larger than itself.
pub proof fn lemma_lex_refl(x: Seq<int>)
    ensures
        lex_le(x, x),
    decreases x.len(),
{
    if x.len() > 0 {
        lemma_lex_refl(x.drop_first());
    }
}

/// The order is transitive.
pub proof fn lemma_lex_trans(x: Seq<int>, y: Seq<int>, z: Seq<int>)
    requires
        lex_le(x, y),
        lex_le(y, z),
    ensures
        lex_le(x, z),
    decreases x.len(),
{
    if x.len() > 0 && x[0] == y[0] && y[0] == z[0] {
        lemma_lex_trans(x.drop_first(), y.drop_first(), z.drop_first());
    }
}

/// Sequences that are no larger than each other are equal.
pub proof fn lemma_lex_antisym(x: Seq<int>, y: Seq<int>)
    requires
        lex_le(x, y),
        lex_le(y, x),
    ensures
        x == y,
    decreases x.len(),
{
    if x.len() > 0 {
        lemma_lex_antisym(x.drop_first(), y.drop_first());
        assert(x =~= seq![x[0]] + x.drop_first());
        assert(y =~= seq![y[0]] + y.drop_first());
    } else {
        assert(x =~= y);
    }
}

/// Sequences with the same first number compare as their rests do.
pub proof fn lemma_lex_cons(a: int, x: Seq<int>, y: Seq<int>)
    ensures
        lex_le(seq![a] + x, seq![a] + y) == lex_le(x, y),
{
    assert((seq![a] + x).drop_first() =~= x);
    assert((seq![a] + y).drop_first() =~= y);
}

/// A smaller first number decides.
pub proof fn lemma_lex_first(x: Seq<int>, y: Seq<int>)
    requires
        x.len() > 0,
        y.len() > 0,
        x[0] < y[0],
    ensures
        lex_le(x, y),
        !lex_le(y, x),
{
}

/// Symbol and type of position `p` in one number: a position of type L
/// comes before one of type S with the same symbol.
pub open spec fn key(s: Seq<usize>, p: int) -> int {
    2 * s[p] + if is_l(s, p) {
        0int
    } else {
        1int
    }
}

/// The keys from position `p` up to its next LMS position, that one
/// included. For an LMS position these are the keys of its LMS substring.
pub open spec fn lms_prefix(s: Seq<usize>, p: int) -> Seq<int>
    decreases s.len() - p,
{
    if p < 0 || p >= s.len() - 1 {
        seq![key(s, p)]
    } else if is_lms(s, p + 1) {
        seq![key(s, p), key(s, p + 1)]
    } else {
        seq![key(s, p)] + lms_prefix(s, p + 1)
    }
}

/// What a position in a slot counts for while positions of type L are
/// induced: an LMS position for its own key only, any other for its LMS
/// prefix.
pub open spec fn slot_key(s: Seq<usize>, q: int) -> Seq<int> {
    if is_lms(s, q) {
        seq![key(s, q)]
    } else {
        lms_prefix(s, q)
    }
}

/// The LMS prefix of a position that is not the last is its key and then
/// what its successor counts for.
pub proof fn lemma_prefix_unfold(s: Seq<usize>, p: int)
    requires
        0 <= p < s.len() - 1,
    ensures
        lms_prefix(s, p) == seq![key(s, p)] + slot_key(s, p + 1),
        lms_prefix(s, p).len() >= 2,
        lms_prefix(s, p)[0] == key(s, p),
{
    if is_lms(s, p + 1) {
        assert(seq![key(s, p), key(s, p + 1)] =~= seq![key(s, p)] + seq![key(s, p + 1)]);
    } else {
        lemma_prefix_first(s, p + 1);
    }
}

/// Every LMS prefix starts with the key of its position.
pub proof fn lemma_prefix_first(s: Seq<usize>, p: int)
    ensures
        lms_prefix(s, p).len() >= 1,
        lms_prefix(s, p)[0] == key(s, p),
        slot_key(s, p).len() >= 1,
        slot_key(s, p)[0] == key(s, p),
{
}

/// A position with a smaller symbol, or with the same symbol and of type
/// L against type S, counts for less, in either sense.
pub proof fn lemma_key_decides(s: Seq<usize>, p: int, q: int)
    requires
        key(s, p) < key(s, q),
    ensures
        lex_le(slot_key(s, p), slot_key(s, q)),
        lex_le(lms_prefix(s, p), lms_prefix(s, q)),
        lex_le(lms_prefix(s, p), slot_key(s, q)),
        lex_le(slot_key(s, p), lms_prefix(s, q)),
{
    lemma_prefix_first(s, p);
    lemma_prefix_first(s, q);
    lemma_lex_first(slot_key(s, p), slot_key(s, q));
    lemma_lex_first(lms_prefix(s, p), lms_prefix(s, q));
    lemma_lex_first(lms_prefix(s, p), slot_key(s, q));
    lemma_lex_first(slot_key(s, p), lms_prefix(s, q));
}

/// The symbols of the suffix that starts at position `p`.
pub open spec fn suffix(s: Seq<usize>, p: int) -> Seq<int> {
    Seq::new((s.len() - p) as nat, |k: int| s[p + k] as int)
}

/// Whether the suffix at `p` is lexicographically no larger than the one
/// at `q`.
pub open spec fn suffix_le(s: Seq<usize>, p: int, q: int) -> bool {
    lex_le(suffix(s, p), suffix(s, q))
}

/// A suffix is its first symbol and then the next suffix.
proof fn lemma_suffix_unfold(s: Seq<usize>, p: int)
    requires
        0 <= p < s.len(),
    ensures
        suffix(s, p) == seq![s[p] as int] + suffix(s, p + 1),
        suffix(s, p).len() >= 1,
        suffix(s, p)[0] == s[p],
{
    assert(suffix(s, p) =~= seq![s[p] as int] + suffix(s, p + 1));
}

/// Suffixes that start with the same symbol compare as the suffixes after
/// it do; a smaller first symbol decides.
proof fn lemma_suffix_step(s: Seq<usize>, p: int, q: int)
    requires
        0 <= p < s.len(),
        0 <= q < s.len(),
    ensures
        s[p] < s[q] ==> suffix_le(s, p, q),
        s[p] == s[q] && suffix_le(s, p + 1, q + 1) ==> suffix_le(s, p, q),
{
    lemma_suffix_unfold(s, p);
    lemma_suffix_unfold(s, q);
    if s[p] < s[q] {
        lemma_lex_first(suffix(s, p), suffix(s, q));
    } else if s[p] == s[q] {
        lemma_lex_cons(s[p] as int, suffix(s, p + 1), suffix(s, q + 1));
    }
}

/// Of two suffixes that start with the same symbol, one of type L comes
/// before one of type S.
pub proof fn lemma_l_before_s(s: Seq<usize>, sigma: int, p: int, q: int)
    requires
        is_text(s, sigma),
        is_l(s, p),
        0 <= q < s.len(),
        !is_l(s, q),
        s[p] == s[q],
    ensures
        suffix_le(s, p, q),
    decreases s.len() - p,
{
    lemma_l_successor(s, p);
    assert(0 < s[p]);
    lemma_s_successor(s, q);
    lemma_suffix_step(s, p, q);
    if s[p + 1] < s[q + 1] {
        lemma_suffix_step(s, p + 1, q + 1);
    } else {
        lemma_l_before_s(s, sigma, p + 1, q + 1);
    }
}

/// A smaller key means a smaller suffix.
proof fn lemma_key_orders_suffixes(s: Seq<usize>, sigma: int, p: int, q: int)
    requires
        is_text(s, sigma),
        0 <= p < s.len(),
        0 <= q < s.len(),
        key(s, p) < key(s, q),
    ensures
        suffix_le(s, p, q),
{
    if s[p] < s[q] {
        lemma_suffix_step(s, p, q);
    } else {
        lemma_l_before_s(s, sigma, p, q);
    }
}

/// The order of LMS prefixes is that of the suffixes, wherever the
/// prefixes differ.
pub proof fn lemma_prefix_orders_suffixes(s: Seq<usize>, sigma: int, p: int, q: int)
    requires
        is_text(s, sigma),
        0 <= p < s.len(),
        0 <= q < s.len(),
        lex_le(lms_prefix(s, p), lms_prefix(s, q)),
        lms_prefix(s, p) != lms_prefix(s, q),
    ensures
        suffix_le(s, p, q),
    decreases s.len() - p,
{
    let n = s.len() as int;
    lemma_prefix_first(s, p);
    lemma_prefix_first(s, q);
    if key(s, p) < key(s, q) {
        lemma_key_orders_suffixes(s, sigma, p, q);
    } else {
        assert(key(s, p) == key(s, q));
        assert(s[p] == s[q]);
        assert(is_l(s, p) == is_l(s, q));
        if p == n - 1 || q == n - 1 {
            assert(s[p] == 0 && s[q] == 0);
            assert(p == q);
        } else {
            let x = slot_key(s, p + 1);
            let y = slot_key(s, q + 1);
            lemma_prefix_unfold(s, p);
            lemma_prefix_unfold(s, q);
            lemma_lex_cons(key(s, p), x, y);
            lemma_prefix_first(s, p + 1);
            lemma_prefix_first(s, q + 1);
            lemma_suffix_step(s, p, q);
            if key(s, p + 1) < key(s, q + 1) {
                lemma_key_orders_suffixes(s, sigma, p + 1, q + 1);
            } else {
                assert(key(s, p + 1) == key(s, q + 1));
                // Equal keys before and at the successors: the two are LMS
                // together or not at all.
                assert(ls_types(s)[p] == is_l(s, p));
                assert(ls_types(s)[q] == is_l(s, q));
                assert(ls_types(s)[p + 1] == is_l(s, p + 1));
                assert(ls_types(s)[q + 1] == is_l(s, q + 1));
                assert(is_lms(s, p + 1) == is_lms(s, q + 1));
                if is_lms(s, p + 1) {
                    assert(x =~= y);
                } else {
                    lemma_prefix_orders_suffixes(s, sigma, p + 1, q + 1);
                }
            }
        }
    }
}

/// The LMS prefix of a position holds the keys of the positions up to
/// the next LMS position, that one included.
pub proof fn lemma_prefix_keys(s: Seq<usize>, sigma: int, p: int)
    requires
        is_text(s, sigma),
        0 <= p < s.len() - 1,
    ensures
        lms_prefix(s, p).len() == next_lms(ls_types(s), p) - p + 1,
        forall|k: int|
            0 <= k < lms_prefix(s, p).len() ==> #[trigger] lms_prefix(s, p)[k] == key(s, p + k),
    decreases s.len() - p,
{
    let n = s.len() as int;
    let t = ls_types(s);
    if !is_lms(s, p + 1) {
        if p + 1 == n - 1 {
            lemma_sentinel_lms(s, sigma);
        }
        lemma_prefix_keys(s, sigma, p + 1);
        let rest = lms_prefix(s, p + 1);
        let all = lms_prefix(s, p);
        assert(all == seq![key(s, p)] + rest);
        assert forall|k: int| 0 <= k < all.len() implies #[trigger] all[k] == key(s, p + k) by {
            if k > 0 {
                assert(all[k] == rest[k - 1]);
            }
        }
    }
}

/// Within equal substrings that each end at an LMS position or at the
/// last position, the types agree.
proof fn lemma_types_agree(s: Seq<usize>, sigma: int, p: int, q: int, len: int, k: int)
    requires
        is_text(s, sigma),
        0 <= p,
        0 <= q,
        1 <= len,
        p + len <= s.len(),
        q + len <= s.len(),
        s.subrange(p, p + len) == s.subrange(q, q + len),
        !is_l(s, p + len - 1),
        !is_l(s, q + len - 1),
        0 <= k < len,
    ensures
        is_l(s, p + k) == is_l(s, q + k),
        key(s, p + k) == key(s, q + k),
    decreases len - k,
{
    let x = s.subrange(p, p + len);
    let y = s.subrange(q, q + len);
    assert(x[k] == s[p + k]);
    assert(y[k] == s[q + k]);
    if k < len - 1 {
        lemma_types_agree(s, sigma, p, q, len, k + 1);
        assert(x[k + 1] == s[p + k + 1]);
        assert(y[k + 1] == s[q + k + 1]);
        if p + k + 1 == s.len() - 1 || q + k + 1 == s.len() - 1 {
            assert(s[p + k + 1] == 0 && s[q + k + 1] == 0);
        }
    }
}

/// Two LMS positions before the last have equal LMS substrings exactly
/// when they have equal LMS prefixes.
pub proof fn lemma_same_substring(s: Seq<usize>, sigma: int, p: int, q: int)
    requires
        is_text(s, sigma),
        is_lms(s, p),
        is_lms(s, q),
        p < s.len() - 1,
        q < s.len() - 1,
    ensures
        (s.subrange(p, next_lms(ls_types(s), p) + 1) == s.subrange(
            q,
            next_lms(ls_types(s), q) + 1,
        )) == (lms_prefix(s, p) == lms_prefix(s, q)),
{
    let t = ls_types(s);
    let ep = next_lms(t, p) + 1;
    let eq = next_lms(t, q) + 1;
    lemma_lms_facts(s, p);
    lemma_lms_facts(s, q);
    lemma_next_lms(t, p);
    lemma_next_lms(t, q);
    lemma_prefix_keys(s, sigma, p);
    lemma_prefix_keys(s, sigma, q);
    let x = s.subrange(p, ep);
    let y = s.subrange(q, eq);
    let kp = lms_prefix(s, p);
    let kq = lms_prefix(s, q);
    assert(x.len() == ep - p);
    assert(y.len() == eq - q);
    assert(t[ep - 1] == is_l(s, ep - 1));
    assert(t[eq - 1] == is_l(s, eq - 1));
    if x == y {
        assert forall|k: int| 0 <= k < kp.len() implies kp[k] == kq[k] by {
            lemma_types_agree(s, sigma, p, q, ep - p, k);
        }
        assert(kp =~= kq);
    }
    if kp == kq {
        assert forall|k: int| 0 <= k < x.len() implies x[k] == y[k] by {
            assert(kp[k] == key(s, p + k));
            assert(kq[k] == key(s, q + k));
        }
        assert(x =~= y);
    }
}

} // verus!
