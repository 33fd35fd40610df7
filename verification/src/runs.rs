//! What sortedness gives the builder: equal LMS substrings stand together
//! in the sorted order, so that a rule's symbol names one substring.

use crate::grammar::{emitted, equal_flags, is_head, round_rules, rule_index, substring_ends};
use crate::induce::{lemma_lms_sorted, lms_sorted};
use crate::order::{
    lemma_lex_antisym, lemma_lex_refl, lemma_prefix_orders_suffixes, lemma_prefix_unfold,
    lemma_same_substring, lex_le, lms_prefix, suffix_le,
};
use crate::packed::{ones_before, rank0_of};
use crate::round::lemma_substring;
use crate::sorted::lemma_sorted_by_substring;
use crate::text::{is_text, ls_types};
use vstd::prelude::*;

verus! {

/// Two positions of the sorted order have equal LMS substrings exactly
/// when they have equal LMS prefixes.
proof fn lemma_same_in_order(s: Seq<usize>, sigma: int, x: int, y: int)
    requires
        is_text(s, sigma),
        0 <= x < lms_sorted(s, sigma).len(),
        0 <= y < lms_sorted(s, sigma).len(),
    ensures
        ({
            let a = lms_sorted(s, sigma);
            let e = substring_ends(ls_types(s), a);
            (s.subrange(a[x] as int, e[x] as int) == s.subrange(a[y] as int, e[y] as int)) == (
            lms_prefix(s, a[x] as int) == lms_prefix(s, a[y] as int))
        }),
{
    let a = lms_sorted(s, sigma);
    let e = substring_ends(ls_types(s), a);
    lemma_lms_sorted(s, sigma);
    lemma_substring(s, sigma, a, x);
    lemma_substring(s, sigma, a, y);
    let sx = s.subrange(a[x] as int, e[x] as int);
    let sy = s.subrange(a[y] as int, e[y] as int);
    assert(sx.len() == e[x] - a[x]);
    assert(sy.len() == e[y] - a[y]);
    if x > 0 && y > 0 {
        lemma_same_substring(s, sigma, a[x] as int, a[y] as int);
    } else if x == 0 && y == 0 {
    } else if x == 0 {
        lemma_prefix_unfold(s, a[y] as int);
    } else {
        lemma_prefix_unfold(s, a[x] as int);
    }
}

/// Equal LMS substrings stand next to each other in the sorted order: a
/// substring that equals an earlier one equals every one in between, and
/// the flag of each of them says so.
pub proof fn lemma_runs_are_classes(s: Seq<usize>, sigma: int, x: int, y: int, z: int)
    requires
        is_text(s, sigma),
        0 <= x < z <= y < lms_sorted(s, sigma).len(),
        s.subrange(
            lms_sorted(s, sigma)[x] as int,
            substring_ends(ls_types(s), lms_sorted(s, sigma))[x] as int,
        ) == s.subrange(
            lms_sorted(s, sigma)[y] as int,
            substring_ends(ls_types(s), lms_sorted(s, sigma))[y] as int,
        ),
    ensures
        equal_flags(s, lms_sorted(s, sigma), substring_ends(ls_types(s), lms_sorted(s, sigma)))[z],
{
    let a = lms_sorted(s, sigma);
    let px = lms_prefix(s, a[x] as int);
    let py = lms_prefix(s, a[y] as int);
    let pz = lms_prefix(s, a[z] as int);
    let pw = lms_prefix(s, a[z - 1] as int);
    lemma_sorted_by_substring(s, sigma);
    lemma_same_in_order(s, sigma, x, y);
    lemma_lex_refl(px);
    // Both the substring at `z` and the one before it lie between two
    // equal ones.
    assert(lex_le(px, pz)) by {
        assert(lex_le(lms_prefix(s, a[x] as int), lms_prefix(s, a[z] as int)));
    }
    assert(lex_le(pz, py)) by {
        if z < y {
            assert(lex_le(lms_prefix(s, a[z] as int), lms_prefix(s, a[y] as int)));
        }
    }
    lemma_lex_antisym(px, pz);
    assert(lex_le(px, pw)) by {
        if x < z - 1 {
            assert(lex_le(lms_prefix(s, a[x] as int), lms_prefix(s, a[z - 1] as int)));
        }
    }
    assert(lex_le(pw, py)) by {
        assert(lex_le(lms_prefix(s, a[z - 1] as int), lms_prefix(s, a[y] as int)));
    }
    lemma_lex_antisym(px, pw);
    lemma_same_in_order(s, sigma, z - 1, z);
}

/// A substring whose flag is clear differs from every substring before
/// it in the sorted order: a run never takes up an earlier run's
/// substring again.
pub proof fn lemma_heads_differ(s: Seq<usize>, sigma: int, x: int, y: int)
    requires
        is_text(s, sigma),
        0 <= x < y < lms_sorted(s, sigma).len(),
        !equal_flags(s, lms_sorted(s, sigma), substring_ends(ls_types(s), lms_sorted(s, sigma)))[y],
    ensures
        s.subrange(
            lms_sorted(s, sigma)[x] as int,
            substring_ends(ls_types(s), lms_sorted(s, sigma))[x] as int,
        ) != s.subrange(
            lms_sorted(s, sigma)[y] as int,
            substring_ends(ls_types(s), lms_sorted(s, sigma))[y] as int,
        ),
{
    let a = lms_sorted(s, sigma);
    let e = substring_ends(ls_types(s), a);
    if s.subrange(a[x] as int, e[x] as int) == s.subrange(a[y] as int, e[y] as int) {
        lemma_runs_are_classes(s, sigma, x, y, y);
    }
}

/// Of two positions of the sorted order whose LMS substrings differ, the
/// earlier has the smaller suffix.
pub proof fn lemma_sorted_by_suffix(s: Seq<usize>, sigma: int, x: int, y: int)
    requires
        is_text(s, sigma),
        0 <= x < y < lms_sorted(s, sigma).len(),
        s.subrange(
            lms_sorted(s, sigma)[x] as int,
            substring_ends(ls_types(s), lms_sorted(s, sigma))[x] as int,
        ) != s.subrange(
            lms_sorted(s, sigma)[y] as int,
            substring_ends(ls_types(s), lms_sorted(s, sigma))[y] as int,
        ),
    ensures
        suffix_le(s, lms_sorted(s, sigma)[x] as int, lms_sorted(s, sigma)[y] as int),
{
    let a = lms_sorted(s, sigma);
    lemma_lms_sorted(s, sigma);
    lemma_substring(s, sigma, a, x);
    lemma_substring(s, sigma, a, y);
    lemma_sorted_by_substring(s, sigma);
    lemma_same_in_order(s, sigma, x, y);
    assert(lex_le(lms_prefix(s, a[x] as int), lms_prefix(s, a[y] as int)));
    lemma_prefix_orders_suffixes(s, sigma, a[x] as int, a[y] as int);
}

/// The rank of clear flags does not change over set flags, and grows
/// over a clear one.
proof fn lemma_rank0_step(eq: Seq<bool>, x: int, y: int)
    requires
        0 <= x <= y < eq.len(),
    ensures
        rank0_of(eq, x) <= rank0_of(eq, y),
        (forall|z: int| x < z <= y ==> eq[z]) ==> rank0_of(eq, x) == rank0_of(eq, y),
        (exists|z: int| x < z <= y && !eq[z]) ==> rank0_of(eq, x) < rank0_of(eq, y),
    decreases y - x,
{
    if x < y {
        lemma_rank0_step(eq, x, y - 1);
        assert(ones_before(eq, y + 1) == ones_before(eq, y) + if eq[y] {
            1nat
        } else {
            0nat
        });
        if exists|z: int| x < z <= y && !eq[z] {
            let z = choose|z: int| x < z <= y && !eq[z];
            if z < y {
                assert(x < z <= y - 1 && !eq[z]);
            }
        }
    }
}

/// Substrings joined by set flags are equal.
proof fn lemma_flags_chain(s: Seq<usize>, a: Seq<usize>, e: Seq<usize>, x: int, y: int)
    requires
        0 <= x <= y < a.len(),
        forall|z: int| x < z <= y ==> equal_flags(s, a, e)[z],
    ensures
        s.subrange(a[x] as int, e[x] as int) == s.subrange(a[y] as int, e[y] as int),
    decreases y - x,
{
    if x < y {
        lemma_flags_chain(s, a, e, x, y - 1);
        assert(equal_flags(s, a, e)[y]);
    }
}

/// A rule's symbol names one LMS substring: two positions of the sorted
/// order are replaced by the same symbol exactly when their LMS
/// substrings are equal.
pub proof fn lemma_symbols_name_substrings(s: Seq<usize>, sigma: int, x: int, y: int)
    requires
        is_text(s, sigma),
        0 <= x < y < lms_sorted(s, sigma).len(),
    ensures
        ({
            let a = lms_sorted(s, sigma);
            let e = substring_ends(ls_types(s), a);
            let eq = equal_flags(s, a, e);
            (rule_index(eq, x) == rule_index(eq, y)) == (s.subrange(a[x] as int, e[x] as int)
                == s.subrange(a[y] as int, e[y] as int))
        }),
{
    let a = lms_sorted(s, sigma);
    let e = substring_ends(ls_types(s), a);
    let eq = equal_flags(s, a, e);
    lemma_rank0_step(eq, x, y);
    if s.subrange(a[x] as int, e[x] as int) == s.subrange(a[y] as int, e[y] as int) {
        assert forall|z: int| x < z <= y implies eq[z] by {
            lemma_runs_are_classes(s, sigma, x, y, z);
        }
    }
    if rule_index(eq, x) == rule_index(eq, y) {
        if exists|z: int| x < z <= y && !eq[z] {
            assert(false);
        }
        lemma_flags_chain(s, a, e, x, y);
    }
}

/// LMS substrings that differ, the sentinel's aside, differ before their
/// last symbol already.
pub open spec fn bodies_tell_apart(s: Seq<usize>, a: Seq<usize>, e: Seq<usize>) -> bool {
    forall|x: int, y: int|
        1 <= x < a.len() && 1 <= y < a.len() && s.subrange(
            #[trigger] a[x] as int,
            e[x] as int,
        ) != s.subrange(#[trigger] a[y] as int, e[y] as int) ==> s.subrange(
            a[x] as int,
            e[x] - 1,
        ) != s.subrange(a[y] as int, e[y] - 1)
}

/// Every rule a walk emits is the substring of a run head, without its
/// last symbol.
proof fn lemma_emitted_heads(s: Seq<usize>, a: Seq<usize>, e: Seq<usize>, eq: Seq<bool>, k: int)
    ensures
        forall|x: int|
            0 <= x < emitted(s, a, e, eq, k).len() ==> exists|h: int|
                0 <= h < k && is_head(eq, h) && a[h] < e[h] - 1 && #[trigger] emitted(
                    s,
                    a,
                    e,
                    eq,
                    k,
                )[x] == s.subrange(#[trigger] a[h] as int, e[h] - 1),
    decreases k,
{
    if k > 0 {
        lemma_emitted_heads(s, a, e, eq, k - 1);
        let prev = emitted(s, a, e, eq, k - 1);
        let cur = emitted(s, a, e, eq, k);
        assert forall|x: int| 0 <= x < cur.len() implies exists|h: int|
            0 <= h < k && is_head(eq, h) && a[h] < e[h] - 1 && #[trigger] cur[x] == s.subrange(
                #[trigger] a[h] as int,
                e[h] - 1,
            ) by {
            if x < prev.len() {
                assert(cur[x] == prev[x]);
                let h = choose|h: int|
                    0 <= h < k - 1 && is_head(eq, h) && a[h] < e[h] - 1 && prev[x] == s.subrange(
                        #[trigger] a[h] as int,
                        e[h] - 1,
                    );
                assert(0 <= h < k && is_head(eq, h) && a[h] < e[h] - 1 && cur[x] == s.subrange(
                    a[h] as int,
                    e[h] - 1,
                ));
            } else {
                assert(cur[x] == s.subrange(a[k - 1] as int, e[k - 1] - 1));
            }
        }
    }
}

/// The rules emitted for the first `k` substrings are pairwise different,
/// where the last substring opens a run of its own and substrings that
/// differ do so before their last symbol.
proof fn lemma_emitted_distinct(s: Seq<usize>, sigma: int, k: int, k1: int, k2: int)
    requires
        is_text(s, sigma),
        0 <= k <= lms_sorted(s, sigma).len(),
        lms_sorted(s, sigma).len() >= 1 ==> !equal_flags(
            s,
            lms_sorted(s, sigma),
            substring_ends(ls_types(s), lms_sorted(s, sigma)),
        )[lms_sorted(s, sigma).len() - 1],
        bodies_tell_apart(
            s,
            lms_sorted(s, sigma),
            substring_ends(ls_types(s), lms_sorted(s, sigma)),
        ),
        0 <= k1 < k2 < emitted(
            s,
            lms_sorted(s, sigma),
            substring_ends(ls_types(s), lms_sorted(s, sigma)),
            equal_flags(
                s,
                lms_sorted(s, sigma),
                substring_ends(ls_types(s), lms_sorted(s, sigma)),
            ),
            k,
        ).len(),
    ensures
        ({
            let a = lms_sorted(s, sigma);
            let e = substring_ends(ls_types(s), a);
            let eq = equal_flags(s, a, e);
            emitted(s, a, e, eq, k)[k1] != emitted(s, a, e, eq, k)[k2]
        }),
    decreases k,
{
    let a = lms_sorted(s, sigma);
    let e = substring_ends(ls_types(s), a);
    let eq = equal_flags(s, a, e);
    let prev = emitted(s, a, e, eq, k - 1);
    let cur = emitted(s, a, e, eq, k);
    if k2 < prev.len() {
        lemma_emitted_distinct(s, sigma, k - 1, k1, k2);
        assert(cur[k1] == prev[k1] && cur[k2] == prev[k2]);
    } else {
        let h = k - 1;
        assert(cur[k2] == s.subrange(a[h] as int, e[h] - 1));
        assert(cur[k1] == prev[k1]);
        lemma_emitted_heads(s, a, e, eq, k - 1);
        let h1 = choose|h1: int|
            0 <= h1 < k - 1 && is_head(eq, h1) && a[h1] < e[h1] - 1 && prev[k1] == s.subrange(
                #[trigger] a[h1] as int,
                e[h1] - 1,
            );
        lemma_lms_sorted(s, sigma);
        lemma_substring(s, sigma, a, h1);
        lemma_substring(s, sigma, a, h);
        lemma_heads_differ(s, sigma, h1, h);
    }
}

/// Rule uniqueness: the rules a round emits are pairwise different, where
/// the last substring of the sorted order differs from the one before it
/// and substrings that differ do so before their last symbol. On every
/// other text the round emits some rule twice.
pub proof fn lemma_rules_distinct(s: Seq<usize>, sigma: int, k1: int, k2: int)
    requires
        is_text(s, sigma),
        lms_sorted(s, sigma).len() >= 1 ==> !equal_flags(
            s,
            lms_sorted(s, sigma),
            substring_ends(ls_types(s), lms_sorted(s, sigma)),
        )[lms_sorted(s, sigma).len() - 1],
        bodies_tell_apart(
            s,
            lms_sorted(s, sigma),
            substring_ends(ls_types(s), lms_sorted(s, sigma)),
        ),
        0 <= k1 < k2 < round_rules(s, sigma).len(),
    ensures
        round_rules(s, sigma)[k1] != round_rules(s, sigma)[k2],
{
    lemma_emitted_distinct(s, sigma, lms_sorted(s, sigma).len() as int, k1, k2);
}

} // verus!
