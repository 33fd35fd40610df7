//! What one round of the construction keeps true: the rule that replaces
//! an LMS substring derives it, the rewritten text is a text again and
//! shorter, and it derives what the text before it did.

use crate::buckets::{
    count, in_class, lemma_count_grows, lemma_distinct_members, lemma_ones_range, Class,
};
use crate::grammar::{
    built, emitted, equal_flags, expand, expansion, grammar_of, is_acyclic, is_head, last_index_of,
    lemma_expand_append, lemma_expand_bound, lemma_expand_extend, lemma_expand_single,
    lemma_expand_terminals, lemma_last_index_range, rewritten_from, round_rules, round_text,
    rule_index, substring_ends, text_of,
};
use crate::induce::{is_lms_order, lemma_lms_sorted, lemma_order_len, lms_sorted};
use crate::packed::ones_before;
use crate::text::{
    is_l, is_lms, is_text, lemma_lms_facts, lemma_next_lms, lemma_sentinel_lms, lemma_text_symbols,
    lms_in, ls_types, next_lms,
};
use vstd::prelude::*;

verus! {

/// Number of clear flags among the first `k`.
pub open spec fn zeros_before(eq: Seq<bool>, k: int) -> int {
    k - ones_before(eq, k)
}

/// The LMS substring at an LMS position, without its last symbol.
pub open spec fn body_at(s: Seq<usize>, p: int) -> Seq<usize> {
    s.subrange(p, next_lms(ls_types(s), p))
}

/// The first substring of an order of the LMS positions is the sentinel
/// alone; every other starts before the last position and is at least
/// three symbols long.
pub proof fn lemma_substring(s: Seq<usize>, sigma: int, a: Seq<usize>, j: int)
    requires
        is_text(s, sigma),
        is_lms_order(s, a),
        0 <= j < a.len(),
    ensures
        s.len() >= 2,
        is_lms(s, a[j] as int),
        substring_ends(ls_types(s), a)[j] == next_lms(ls_types(s), a[j] as int) + 1,
        j == 0 ==> a[j] == s.len() - 1 && substring_ends(ls_types(s), a)[j] == s.len(),
        j > 0 ==> 0 < a[j] && a[j] + 2 <= next_lms(ls_types(s), a[j] as int) <= s.len() - 1,
{
    let n = s.len() as int;
    let t = ls_types(s);
    let p = a[j] as int;
    assert(is_lms(s, p));
    lemma_lms_facts(s, p);
    if j > 0 {
        assert(a[0] != a[j]);
        lemma_next_lms(t, p);
        let nx = next_lms(t, p);
        if nx == p + 1 {
            if nx == n - 1 {
                lemma_sentinel_lms(s, sigma);
            }
            assert(lms_in(t, nx));
            assert(t[p] == is_l(s, p));
        }
    }
}

/// Two equal substrings have equal lengths and stay equal without their
/// last symbols.
pub proof fn lemma_equal_bodies(s: Seq<usize>, a1: int, e1: int, a2: int, e2: int)
    requires
        0 <= a1 < e1 <= s.len(),
        0 <= a2 < e2 <= s.len(),
        s.subrange(a1, e1) == s.subrange(a2, e2),
    ensures
        e1 - a1 == e2 - a2,
        s.subrange(a1, e1 - 1) == s.subrange(a2, e2 - 1),
{
    let x = s.subrange(a1, e1);
    let y = s.subrange(a2, e2);
    assert(x.len() == y.len());
    let x1 = s.subrange(a1, e1 - 1);
    let y1 = s.subrange(a2, e2 - 1);
    assert(x.len() == e1 - a1);
    assert(y.len() == e2 - a2);
    assert(x1.len() == e1 - 1 - a1);
    assert(y1.len() == e2 - 1 - a2);
    assert forall|k: int| 0 <= k < x1.len() implies #[trigger] x1[k] == y1[k] by {
        assert(x[k] == s[a1 + k]);
        assert(y[k] == s[a2 + k]);
        assert(x1[k] == s[a1 + k]);
        assert(y1[k] == s[a2 + k]);
    }
    assert(x1 =~= y1);
}

/// A substring that equals the one before it is not the second of the
/// order: the first is the sentinel alone.
proof fn lemma_flag(s: Seq<usize>, sigma: int, a: Seq<usize>, j: int)
    requires
        is_text(s, sigma),
        is_lms_order(s, a),
        1 <= j < a.len(),
        equal_flags(s, a, substring_ends(ls_types(s), a))[j],
    ensures
        j >= 2,
        body_at(s, a[j - 1] as int) == body_at(s, a[j] as int),
{
    let e = substring_ends(ls_types(s), a);
    lemma_substring(s, sigma, a, j);
    lemma_substring(s, sigma, a, j - 1);
    lemma_equal_bodies(s, a[j - 1] as int, e[j - 1] as int, a[j] as int, e[j] as int);
}

/// Among the substrings before the last, the rules emitted are one per
/// run but for the sentinel's, and the run of a substring is found by
/// counting the clear flags up to it.
proof fn lemma_emitted_prefix(s: Seq<usize>, sigma: int, a: Seq<usize>, k: int)
    requires
        is_text(s, sigma),
        is_lms_order(s, a),
        1 <= k <= a.len() - 1,
    ensures
        ({
            let e = substring_ends(ls_types(s), a);
            let eq = equal_flags(s, a, e);
            let em = emitted(s, a, e, eq, k);
            &&& em.len() == zeros_before(eq, k) - 1
            &&& forall|j: int|
                1 <= j < k ==> 0 <= zeros_before(eq, j + 1) - 2 < em.len() && em[zeros_before(
                    eq,
                    j + 1,
                ) - 2] == body_at(s, #[trigger] a[j] as int)
        }),
    decreases k,
{
    let e = substring_ends(ls_types(s), a);
    let eq = equal_flags(s, a, e);
    let em = emitted(s, a, e, eq, k);
    if k == 1 {
        lemma_substring(s, sigma, a, 0);
        assert(!eq[0]);
        assert(ones_before(eq, 1) == ones_before(eq, 0) + 0);
        assert(emitted(s, a, e, eq, 0).len() == 0);
    } else {
        lemma_emitted_prefix(s, sigma, a, k - 1);
        let prev = emitted(s, a, e, eq, k - 1);
        lemma_substring(s, sigma, a, k - 1);
        assert(a[k - 1] < e[k - 1] - 1);
        assert(is_head(eq, k - 1) == !eq[k - 1]);
        if eq[k - 1] {
            lemma_flag(s, sigma, a, k - 1);
            assert(em == prev);
            assert forall|j: int| 1 <= j < k implies 0 <= zeros_before(eq, j + 1) - 2 < em.len()
                && em[zeros_before(eq, j + 1) - 2] == body_at(s, #[trigger] a[j] as int) by {
                if j == k - 1 {
                    assert(body_at(s, a[k - 2] as int) == body_at(s, a[j] as int));
                    assert(zeros_before(eq, j + 1) == zeros_before(eq, j));
                    assert(em[zeros_before(eq, (k - 2) + 1) - 2] == body_at(s, a[k - 2] as int));
                }
            }
        } else {
            assert(em == prev.push(s.subrange(a[k - 1] as int, e[k - 1] - 1)));
            assert forall|j: int| 1 <= j < k implies 0 <= zeros_before(eq, j + 1) - 2 < em.len()
                && em[zeros_before(eq, j + 1) - 2] == body_at(s, #[trigger] a[j] as int) by {
                if j < k - 1 {
                    assert(em[zeros_before(eq, j + 1) - 2] == prev[zeros_before(eq, j + 1) - 2]);
                }
            }
        }
    }
}

/// What a round emits: the rule that `rule_index` names for a substring
/// other than the sentinel's is that substring without its last symbol,
/// and there is at least one rule, and at most one per such substring.
pub proof fn lemma_round_rules(s: Seq<usize>, sigma: int, a: Seq<usize>)
    requires
        is_text(s, sigma),
        is_lms_order(s, a),
    ensures
        ({
            let e = substring_ends(ls_types(s), a);
            let eq = equal_flags(s, a, e);
            let fresh = emitted(s, a, e, eq, a.len() as int);
            &&& a.len() <= 1 ==> fresh.len() == 0
            &&& a.len() >= 2 ==> 1 <= fresh.len() <= a.len() - 1
            &&& forall|j: int|
                1 <= j < a.len() ==> 0 <= rule_index(eq, j) < fresh.len() && fresh[rule_index(eq, j)]
                    == body_at(s, #[trigger] a[j] as int)
        }),
{
    let m = a.len() as int;
    let e = substring_ends(ls_types(s), a);
    let eq = equal_flags(s, a, e);
    let fresh = emitted(s, a, e, eq, m);
    if m == 1 {
        lemma_substring(s, sigma, a, 0);
        assert(emitted(s, a, e, eq, 0).len() == 0);
    } else if m >= 2 {
        lemma_emitted_prefix(s, sigma, a, m - 1);
        let prev = emitted(s, a, e, eq, m - 1);
        lemma_substring(s, sigma, a, m - 1);
        assert(is_head(eq, m - 1));
        assert(fresh == prev.push(s.subrange(a[m - 1] as int, e[m - 1] - 1)));
        lemma_ones_range(eq, m - 1);
        assert(!eq[0]);
        lemma_ones_skip_first(eq, m - 1);
        assert forall|j: int| 1 <= j < m implies 0 <= rule_index(eq, j) < fresh.len() && fresh[rule_index(
            eq,
            j,
        )] == body_at(s, #[trigger] a[j] as int) by {
            assert(rule_index(eq, j) == zeros_before(eq, j + 1) - 2);
            if j < m - 1 {
                assert(fresh[zeros_before(eq, j + 1) - 2] == prev[zeros_before(eq, j + 1) - 2]);
            } else if eq[m - 1] {
                lemma_flag(s, sigma, a, m - 1);
                assert(zeros_before(eq, m) == zeros_before(eq, m - 1));
                assert(prev[zeros_before(eq, (m - 2) + 1) - 2] == body_at(s, a[m - 2] as int));
                assert(fresh[zeros_before(eq, m) - 2] == prev[zeros_before(eq, m) - 2]);
            }
        }
    } else {
        assert(emitted(s, a, e, eq, 0).len() == 0);
    }
}

/// A clear first flag is not among the set flags.
proof fn lemma_ones_skip_first(eq: Seq<bool>, k: int)
    requires
        1 <= k,
        !eq[0],
    ensures
        ones_before(eq, k) <= k - 1,
    decreases k,
{
    if k > 1 {
        lemma_ones_skip_first(eq, k - 1);
    } else {
        assert(ones_before(eq, 0) == 0);
    }
}

/// Every rule a walk emits is one of the substrings without its last
/// symbol, and not empty.
pub proof fn lemma_emitted_bodies(
    s: Seq<usize>,
    a: Seq<usize>,
    e: Seq<usize>,
    eq: Seq<bool>,
    k: int,
)
    ensures
        forall|x: int|
            0 <= x < emitted(s, a, e, eq, k).len() ==> exists|j: int|
                0 <= j < k && a[j] < e[j] - 1 && #[trigger] emitted(s, a, e, eq, k)[x]
                    == s.subrange(#[trigger] a[j] as int, e[j] - 1),
    decreases k,
{
    if k > 0 {
        lemma_emitted_bodies(s, a, e, eq, k - 1);
        let prev = emitted(s, a, e, eq, k - 1);
        let cur = emitted(s, a, e, eq, k);
        assert forall|x: int| 0 <= x < cur.len() implies exists|j: int|
            0 <= j < k && a[j] < e[j] - 1 && #[trigger] cur[x] == s.subrange(
                #[trigger] a[j] as int,
                e[j] - 1,
            ) by {
            if x < prev.len() {
                assert(cur[x] == prev[x]);
                let j = choose|j: int|
                    0 <= j < k - 1 && a[j] < e[j] - 1 && prev[x] == s.subrange(
                        #[trigger] a[j] as int,
                        e[j] - 1,
                    );
                assert(0 <= j < k && a[j] < e[j] - 1 && cur[x] == s.subrange(a[j] as int, e[j] - 1));
            } else {
                assert(cur[x] == s.subrange(a[k - 1] as int, e[k - 1] - 1));
            }
        }
    }
}

/// A symbol in front of a text gives a text.
proof fn lemma_text_cons(x: usize, rest: Seq<usize>, sigma: int)
    requires
        is_text(rest, sigma),
        0 < x < sigma,
        rest.len() < usize::MAX,
    ensures
        is_text(seq![x] + rest, sigma),
{
    let out = seq![x] + rest;
    assert forall|i: int| 0 <= i < out.len() - 1 implies 0 < #[trigger] out[i] < sigma by {
        if i > 0 {
            assert(out[i] == rest[i - 1]);
        }
    }
    assert(out[out.len() - 1] == rest[rest.len() - 1]);
}

/// The LMS positions counted up to the next one after an LMS position are
/// one more than those counted up to it.
proof fn lemma_count_lms_step(s: Seq<usize>, p: int, upto: int)
    requires
        0 <= p < upto,
        forall|k: int| p < k < upto ==> !is_lms(s, k),
    ensures
        count(s, Class::Lms, 0, upto) == count(s, Class::Lms, 0, p + 1),
    decreases upto - p,
{
    if p + 1 < upto {
        lemma_count_lms_step(s, p, upto - 1);
    }
}

/// What holds of the text as rewritten from position `i` on: it is a
/// text over the grown alphabet, it is shorter than what it replaces by
/// one symbol at least for every LMS position replaced, and it derives
/// what it replaces.
pub open spec fn rewrite_ok(s: Seq<usize>, rules: Seq<Seq<usize>>, a: Seq<usize>, i: int) -> bool {
    let n = s.len() as int;
    let e = substring_ends(ls_types(s), a);
    let eq = equal_flags(s, a, e);
    let all = rules + emitted(s, a, e, eq, a.len() as int);
    let out = rewritten_from(s, a, eq, all, rules.len() as int, i);
    &&& is_text(out, 256 + all.len() as int)
    &&& out.len() + count(s, Class::Lms, 0, n - 1) - count(s, Class::Lms, 0, i) <= n - i
    &&& expand(all, out, all.len() as int) == expand(rules, s.subrange(i, n), rules.len() as int)
}

/// A rule's symbol in front of a rewritten rest derives what the rule's
/// body in front of the rest it stands for derived.
proof fn lemma_expand_replaced(
    rules: Seq<Seq<usize>>,
    fresh: Seq<Seq<usize>>,
    rid: int,
    body: Seq<usize>,
    rest: Seq<usize>,
    src_rest: Seq<usize>,
)
    requires
        0 <= rid < fresh.len(),
        fresh[rid] == body,
        256 + rules.len() + rid <= usize::MAX,
        forall|k: int| 0 <= k < body.len() ==> (#[trigger] body[k]) < 256 + rules.len(),
        expand(rules + fresh, rest, (rules + fresh).len() as int) == expand(
            rules,
            src_rest,
            rules.len() as int,
        ),
    ensures
        expand(
            rules + fresh,
            seq![(256 + rules.len() + rid) as usize] + rest,
            (rules + fresh).len() as int,
        ) == expand(rules, body + src_rest, rules.len() as int),
{
    let all = rules + fresh;
    let before = rules.len() as int;
    let id = (256 + before + rid) as usize;
    assert(all[before + rid] == fresh[rid]);
    lemma_expand_append(all, seq![id], rest, all.len() as int);
    lemma_expand_single(all, id, all.len() as int);
    lemma_expand_bound(all, body, before, before + rid);
    lemma_expand_extend(rules, fresh, body, before);
    lemma_expand_append(rules, body, src_rest, before);
}

/// A copied symbol in front of a rewritten rest derives what it derived
/// in front of the rest it stands for.
proof fn lemma_expand_copied(
    rules: Seq<Seq<usize>>,
    fresh: Seq<Seq<usize>>,
    x: usize,
    rest: Seq<usize>,
    src_rest: Seq<usize>,
)
    requires
        x < 256 + rules.len(),
        expand(rules + fresh, rest, (rules + fresh).len() as int) == expand(
            rules,
            src_rest,
            rules.len() as int,
        ),
    ensures
        expand(rules + fresh, seq![x] + rest, (rules + fresh).len() as int) == expand(
            rules,
            seq![x] + src_rest,
            rules.len() as int,
        ),
{
    let all = rules + fresh;
    let before = rules.len() as int;
    let one = seq![x];
    lemma_expand_append(all, one, rest, all.len() as int);
    lemma_expand_bound(all, one, before, all.len() as int);
    lemma_expand_extend(rules, fresh, one, before);
    lemma_expand_append(rules, one, src_rest, before);
}

/// Where the rewriting replaces: the position is LMS and not the last,
/// and its rule is the substring up to the next LMS position.
proof fn lemma_replace_rule(s: Seq<usize>, sigma: int, a: Seq<usize>, i: int)
    requires
        is_text(s, sigma),
        is_lms_order(s, a),
        0 <= i < s.len() - 1,
        last_index_of(a, i, a.len() as int) >= 0,
    ensures
        ({
            let t = ls_types(s);
            let e = substring_ends(t, a);
            let eq = equal_flags(s, a, e);
            let fresh = emitted(s, a, e, eq, a.len() as int);
            let rid = rule_index(eq, last_index_of(a, i, a.len() as int));
            let nx = next_lms(t, i);
            &&& is_lms(s, i)
            &&& i + 2 <= nx <= s.len() - 1
            &&& forall|k: int| i < k < nx ==> !is_lms(s, k)
            &&& 0 <= rid < fresh.len() <= a.len() <= s.len()
            &&& fresh[rid] == s.subrange(i, nx)
        }),
{
    let m = a.len() as int;
    let t = ls_types(s);
    let j = last_index_of(a, i, m);
    lemma_last_index_range(a, i, m);
    lemma_substring(s, sigma, a, 0);
    lemma_substring(s, sigma, a, j);
    lemma_round_rules(s, sigma, a);
    lemma_order_len(s, a);
    lemma_next_lms(t, i);
}

/// How the rewriting goes on from a position that is listed and whose
/// rule ends within the text.
proof fn lemma_rewritten_step(
    s: Seq<usize>,
    a: Seq<usize>,
    eq: Seq<bool>,
    all: Seq<Seq<usize>>,
    before: int,
    i: int,
)
    requires
        0 <= i < s.len() - 1,
        last_index_of(a, i, a.len() as int) >= 0,
        1 <= all[before + rule_index(eq, last_index_of(a, i, a.len() as int))].len(),
        i + all[before + rule_index(eq, last_index_of(a, i, a.len() as int))].len() < s.len(),
    ensures
        rewritten_from(s, a, eq, all, before, i) == seq![
            (256 + before + rule_index(eq, last_index_of(a, i, a.len() as int))) as usize,
        ] + rewritten_from(
            s,
            a,
            eq,
            all,
            before,
            i + all[before + rule_index(eq, last_index_of(a, i, a.len() as int))].len(),
        ),
{
}

/// Where the rewriting replaces, it writes the symbol of the rule and
/// goes on from the next LMS position.
proof fn lemma_replace_shape(
    s: Seq<usize>,
    sigma: int,
    rules: Seq<Seq<usize>>,
    a: Seq<usize>,
    i: int,
)
    requires
        is_text(s, sigma),
        is_lms_order(s, a),
        0 <= i < s.len() - 1,
        last_index_of(a, i, a.len() as int) >= 0,
    ensures
        ({
            let t = ls_types(s);
            let e = substring_ends(t, a);
            let eq = equal_flags(s, a, e);
            let fresh = emitted(s, a, e, eq, a.len() as int);
            let rid = rule_index(eq, last_index_of(a, i, a.len() as int));
            let nx = next_lms(t, i);
            &&& is_lms(s, i)
            &&& i + 2 <= nx <= s.len() - 1
            &&& forall|k: int| i < k < nx ==> !is_lms(s, k)
            &&& 0 <= rid < fresh.len() <= a.len() <= s.len()
            &&& fresh[rid] == s.subrange(i, nx)
            &&& rewritten_from(s, a, eq, rules + fresh, rules.len() as int, i) == seq![
                (256 + rules.len() + rid) as usize,
            ] + rewritten_from(s, a, eq, rules + fresh, rules.len() as int, nx)
        }),
{
    let t = ls_types(s);
    let e = substring_ends(t, a);
    let eq = equal_flags(s, a, e);
    let fresh = emitted(s, a, e, eq, a.len() as int);
    let all = rules + fresh;
    let before = rules.len() as int;
    let rid = rule_index(eq, last_index_of(a, i, a.len() as int));
    let nx = next_lms(t, i);
    lemma_replace_rule(s, sigma, a, i);
    assert(all[before + rid] == fresh[rid]);
    assert(fresh[rid].len() == nx - i);
    lemma_rewritten_step(s, a, eq, all, before, i);
}

/// The step of `lemma_rewrite` at a position that is replaced.
proof fn lemma_rewrite_replace(
    s: Seq<usize>,
    sigma: int,
    rules: Seq<Seq<usize>>,
    a: Seq<usize>,
    i: int,
)
    requires
        is_text(s, sigma),
        sigma == 256 + rules.len(),
        256 + rules.len() + s.len() <= usize::MAX,
        is_lms_order(s, a),
        0 <= i < s.len() - 1,
        last_index_of(a, i, a.len() as int) >= 0,
        rewrite_ok(s, rules, a, next_lms(ls_types(s), i)),
    ensures
        rewrite_ok(s, rules, a, i),
{
    let n = s.len() as int;
    let m = a.len() as int;
    let t = ls_types(s);
    let e = substring_ends(t, a);
    let eq = equal_flags(s, a, e);
    let fresh = emitted(s, a, e, eq, m);
    let all = rules + fresh;
    let before = rules.len() as int;
    let nx = next_lms(t, i);
    let rid = rule_index(eq, last_index_of(a, i, m));
    let body = s.subrange(i, nx);
    let id = (256 + before + rid) as usize;
    let rest = rewritten_from(s, a, eq, all, before, nx);
    lemma_replace_shape(s, sigma, rules, a, i);
    assert(rewritten_from(s, a, eq, all, before, i) == seq![id] + rest);
    lemma_count_lms_step(s, i, nx);
    lemma_count_grows(s, Class::Lms, 0, nx, n - 1);
    assert(in_class(s, Class::Lms, 0, i));
    lemma_text_cons(id, rest, 256 + all.len() as int);
    lemma_text_symbols(s, sigma);
    assert forall|k: int| 0 <= k < body.len() implies (#[trigger] body[k]) < 256 + before by {
        assert(body[k] == s[i + k]);
    }
    lemma_expand_replaced(rules, fresh, rid, body, rest, s.subrange(nx, n));
    assert(s.subrange(i, n) =~= body + s.subrange(nx, n));
}

/// The step of `lemma_rewrite` at a position that is copied.
proof fn lemma_rewrite_copy(
    s: Seq<usize>,
    sigma: int,
    rules: Seq<Seq<usize>>,
    a: Seq<usize>,
    i: int,
)
    requires
        is_text(s, sigma),
        sigma == 256 + rules.len(),
        256 + rules.len() + s.len() <= usize::MAX,
        is_lms_order(s, a),
        0 <= i < s.len() - 1,
        last_index_of(a, i, a.len() as int) < 0,
        rewrite_ok(s, rules, a, i + 1),
    ensures
        rewrite_ok(s, rules, a, i),
{
    let n = s.len() as int;
    let m = a.len() as int;
    let t = ls_types(s);
    let e = substring_ends(t, a);
    let eq = equal_flags(s, a, e);
    let fresh = emitted(s, a, e, eq, m);
    let all = rules + fresh;
    let before = rules.len() as int;
    lemma_last_index_range(a, i, m);
    let rest = rewritten_from(s, a, eq, all, before, i + 1);
    let out = rewritten_from(s, a, eq, all, before, i);
    assert(out == seq![s[i]] + rest);
    assert(0 < s[i] < sigma);
    lemma_count_grows(s, Class::Lms, 0, i + 1, n - 1);
    lemma_text_cons(s[i], rest, 256 + all.len() as int);
    if is_lms(s, i) {
        let j = choose|j: int| 0 <= j < a.len() && #[trigger] a[j] == i;
        assert(false);
    }
    assert(!in_class(s, Class::Lms, 0, i));
    lemma_expand_copied(rules, fresh, s[i], rest, s.subrange(i + 1, n));
    assert(s.subrange(i, n) =~= seq![s[i]] + s.subrange(i + 1, n));
}

/// `rewrite_ok` holds from every position on.
pub proof fn lemma_rewrite(s: Seq<usize>, sigma: int, rules: Seq<Seq<usize>>, a: Seq<usize>, i: int)
    requires
        is_text(s, sigma),
        sigma == 256 + rules.len(),
        256 + rules.len() + s.len() <= usize::MAX,
        is_lms_order(s, a),
        0 <= i <= s.len() - 1,
    ensures
        rewrite_ok(s, rules, a, i),
    decreases s.len() - i,
{
    let n = s.len() as int;
    let m = a.len() as int;
    let t = ls_types(s);
    let e = substring_ends(t, a);
    let eq = equal_flags(s, a, e);
    let fresh = emitted(s, a, e, eq, m);
    let all = rules + fresh;
    let before = rules.len() as int;
    if i == n - 1 {
        let out = rewritten_from(s, a, eq, all, before, i);
        assert(out == seq![0usize]);
        assert(s.subrange(i, n) =~= seq![0usize]);
        lemma_expand_single(all, 0usize, all.len() as int);
        lemma_expand_single(rules, 0usize, before);
    } else if last_index_of(a, i, m) >= 0 {
        lemma_last_index_range(a, i, m);
        lemma_substring(s, sigma, a, 0);
        lemma_substring(s, sigma, a, last_index_of(a, i, m));
        lemma_rewrite(s, sigma, rules, a, next_lms(t, i));
        lemma_rewrite_replace(s, sigma, rules, a, i);
    } else {
        lemma_rewrite(s, sigma, rules, a, i + 1);
        lemma_rewrite_copy(s, sigma, rules, a, i);
    }
}

/// A builder state: a text over the terminals and the rules so far,
/// rules that refer backwards only, and symbols that stay machine
/// integers however many rules the text can still give.
pub open spec fn is_state(s: Seq<usize>, rules: Seq<Seq<usize>>) -> bool {
    &&& is_text(s, 256 + rules.len() as int)
    &&& is_acyclic(rules)
    &&& 256 + rules.len() + s.len() <= usize::MAX
}

/// Nothing is LMS below the first position.
proof fn lemma_count_lms_zero(s: Seq<usize>)
    ensures
        count(s, Class::Lms, 0, 0) == 0,
{
}

/// An order of the LMS positions lists no more of them, the last position
/// aside, than there are before the last position.
proof fn lemma_order_count(s: Seq<usize>, sigma: int, a: Seq<usize>)
    requires
        is_text(s, sigma),
        is_lms_order(s, a),
        a.len() >= 1,
    ensures
        a.len() - 1 <= count(s, Class::Lms, 0, s.len() - 1),
{
    let q = a.drop_first();
    lemma_substring(s, sigma, a, 0);
    assert forall|j: int| 0 <= j < q.len() implies (#[trigger] q[j]) < s.len() - 1 && in_class(
        s,
        Class::Lms,
        0,
        q[j] as int,
    ) by {
        assert(q[j] == a[j + 1]);
        lemma_substring(s, sigma, a, j + 1);
    }
    assert forall|i: int, j: int| 0 <= i < q.len() && 0 <= j < q.len() && i != j implies q[i]
        != q[j] by {
        if i < j {
            assert(a[i + 1] != a[j + 1]);
        } else {
            assert(a[j + 1] != a[i + 1]);
        }
    }
    lemma_distinct_members(s, Class::Lms, 0, q, s.len() - 1);
}

/// One round of the construction, from a builder state: the rules it
/// emits hold symbols of the text only and are no longer than the text;
/// the text it rewrites to is a text over the grown alphabet, shorter by
/// at least one symbol for every rule emitted, and derives under the
/// grown rules what the text before it derived.
pub proof fn lemma_round(s: Seq<usize>, rules: Seq<Seq<usize>>)
    requires
        is_state(s, rules),
    ensures
        ({
            let fresh = round_rules(s, 256 + rules.len() as int);
            let next = round_text(s, rules);
            &&& is_text(next, 256 + rules.len() as int + fresh.len() as int)
            &&& fresh.len() + next.len() <= s.len()
            &&& is_acyclic(rules + fresh)
            &&& forall|x: int| 0 <= x < fresh.len() ==> 2 <= (#[trigger] fresh[x]).len() <= s.len()
            &&& expand(rules + fresh, next, rules.len() as int + fresh.len() as int) == expand(
                rules,
                s,
                rules.len() as int,
            )
        }),
{
    let n = s.len() as int;
    let sigma = 256 + rules.len() as int;
    let a = lms_sorted(s, sigma);
    let t = ls_types(s);
    let e = substring_ends(t, a);
    let eq = equal_flags(s, a, e);
    let fresh = round_rules(s, sigma);
    let all = rules + fresh;
    lemma_lms_sorted(s, sigma);
    lemma_rewrite(s, sigma, rules, a, 0);
    lemma_round_rules(s, sigma, a);
    lemma_count_lms_zero(s);
    if a.len() >= 1 {
        lemma_order_count(s, sigma, a);
    }
    assert(s.subrange(0, n) =~= s);
    lemma_emitted_bodies(s, a, e, eq, a.len() as int);
    lemma_text_symbols(s, sigma);
    assert forall|x: int| 0 <= x < fresh.len() implies 2 <= (#[trigger] fresh[x]).len() <= n
        && forall|k: int| 0 <= k < fresh[x].len() ==> (#[trigger] fresh[x][k]) < sigma by {
        let j = choose|j: int|
            0 <= j < a.len() && a[j] < e[j] - 1 && fresh[x] == s.subrange(
                #[trigger] a[j] as int,
                e[j] - 1,
            );
        lemma_substring(s, sigma, a, j);
        assert forall|k: int| 0 <= k < fresh[x].len() implies (#[trigger] fresh[x][k]) < sigma by {
            assert(fresh[x][k] == s[a[j] + k]);
        }
    }
    assert forall|k: int, j: int| 0 <= k < all.len() && 0 <= j < all[k].len() implies (#[trigger] all[k][j])
        < 256 + k by {
        if k < rules.len() {
            assert(all[k] == rules[k]);
            assert(rules[k][j] < 256 + k);
        } else {
            assert(all[k] == fresh[k - rules.len()]);
            assert(fresh[k - rules.len()][j] < sigma);
        }
    }
}

/// Each round shortens the text or emits no rule.
pub proof fn lemma_round_shrinks(s: Seq<usize>, rules: Seq<Seq<usize>>)
    requires
        is_state(s, rules),
    ensures
        round_rules(s, 256 + rules.len() as int).len() == 0 || round_text(s, rules).len()
            < s.len(),
{
    lemma_round(s, rules);
}

/// The grammar built from a builder state derives what the state's text
/// derives under the state's rules, and its rules refer backwards only.
/// Its rules and the symbols of its start rule are together no more than
/// the state's rules and symbols, and the start rule.
pub proof fn lemma_built(s: Seq<usize>, rules: Seq<Seq<usize>>)
    requires
        is_state(s, rules),
    ensures
        expansion(built(s, rules)) == expand(rules, s, rules.len() as int),
        is_acyclic(built(s, rules)),
        built(s, rules).len() >= rules.len() + 1,
        built(s, rules).len() + built(s, rules).last().len() <= rules.len() + s.len() + 1,
    decreases s.len(),
{
    let fresh = round_rules(s, 256 + rules.len() as int);
    let next = round_text(s, rules);
    lemma_round(s, rules);
    if fresh.len() == 0 || next.len() >= s.len() {
        let g = rules.push(s);
        assert(g =~= rules + seq![s]);
        lemma_expand_extend(rules, seq![s], s, rules.len() as int);
        assert(g.last() == s);
        assert forall|k: int, j: int| 0 <= k < g.len() && 0 <= j < g[k].len() implies (#[trigger] g[k][j])
            < 256 + k by {
            if k < rules.len() {
                assert(g[k] == rules[k]);
                assert(rules[k][j] < 256 + k);
            } else {
                lemma_text_symbols(s, 256 + rules.len() as int);
            }
        }
    } else {
        lemma_built(next, rules + fresh);
    }
}

/// A byte string without zero bytes, with the sentinel appended, is a
/// text over the terminals.
pub proof fn lemma_text_of(data: Seq<u8>)
    requires
        forall|i: int| 0 <= i < data.len() ==> #[trigger] data[i] != 0,
        data.len() < usize::MAX,
    ensures
        is_text(text_of(data), 256),
        forall|i: int| 0 <= i < text_of(data).len() ==> (#[trigger] text_of(data)[i]) < 256,
{
    let s = text_of(data);
    assert forall|i: int| 0 <= i < s.len() - 1 implies 0 < #[trigger] s[i] < 256 by {
        assert(data[i] != 0);
    }
}

/// Round trip: the grammar of a byte string without zero bytes derives
/// the bytes followed by the sentinel.
pub proof fn lemma_round_trip(data: Seq<u8>)
    requires
        forall|i: int| 0 <= i < data.len() ==> #[trigger] data[i] != 0,
        data.len() + 257 <= usize::MAX,
    ensures
        expansion(grammar_of(data)) == text_of(data),
{
    lemma_text_of(data);
    lemma_built(text_of(data), Seq::empty());
    lemma_expand_terminals(Seq::empty(), text_of(data), 0);
}

/// No cycles: rule `k` of the grammar of a byte string holds terminals
/// and symbols of rules before `k` only.
pub proof fn lemma_no_cycles(data: Seq<u8>)
    requires
        forall|i: int| 0 <= i < data.len() ==> #[trigger] data[i] != 0,
        data.len() + 257 <= usize::MAX,
    ensures
        is_acyclic(grammar_of(data)),
        grammar_of(data).len() >= 1,
{
    lemma_text_of(data);
    lemma_built(text_of(data), Seq::empty());
}

/// Size: the rules of the grammar of a byte string and the symbols of its
/// start rule are together no more than the bytes, the sentinel and the
/// start rule itself.
pub proof fn lemma_size(data: Seq<u8>)
    requires
        forall|i: int| 0 <= i < data.len() ==> #[trigger] data[i] != 0,
        data.len() + 257 <= usize::MAX,
    ensures
        grammar_of(data).len() + grammar_of(data).last().len() <= data.len() + 2,
{
    lemma_text_of(data);
    lemma_built(text_of(data), Seq::empty());
}

/// Determinism: whatever two runs of the builder return for the same
/// bytes, being the grammar of those bytes, is the same list of rules.
pub proof fn lemma_deterministic(data: Seq<u8>, first: Seq<Seq<usize>>, second: Seq<Seq<usize>>)
    requires
        first == grammar_of(data),
        second == grammar_of(data),
    ensures
        first == second,
{
}

/// What a round's walk over the sorted LMS substrings can count on:
/// every substring lies within the text and is not empty, and there are
/// no more substrings than positions.
pub proof fn lemma_round_substrings(s: Seq<usize>, sigma: int)
    requires
        is_text(s, sigma),
    ensures
        ({
            let a = lms_sorted(s, sigma);
            let e = substring_ends(ls_types(s), a);
            &&& a.len() <= s.len()
            &&& forall|j: int| 0 <= j < a.len() ==> (#[trigger] a[j]) < e[j] <= s.len()
        }),
{
    let a = lms_sorted(s, sigma);
    let e = substring_ends(ls_types(s), a);
    lemma_lms_sorted(s, sigma);
    lemma_order_len(s, a);
    assert forall|j: int| 0 <= j < a.len() implies (#[trigger] a[j]) < e[j] <= s.len() by {
        lemma_substring(s, sigma, a, j);
    }
}

/// What a round's rewriting can count on: the rank of every substring but
/// the sentinel's names one of the round's rules.
pub proof fn lemma_round_ranks(s: Seq<usize>, sigma: int)
    requires
        is_text(s, sigma),
    ensures
        ({
            let a = lms_sorted(s, sigma);
            let e = substring_ends(ls_types(s), a);
            let eq = equal_flags(s, a, e);
            forall|j: int|
                0 <= j < a.len() && (#[trigger] a[j]) < s.len() - 1 ==> 0 <= rule_index(eq, j)
                    < round_rules(s, sigma).len()
        }),
{
    let a = lms_sorted(s, sigma);
    let e = substring_ends(ls_types(s), a);
    let eq = equal_flags(s, a, e);
    lemma_lms_sorted(s, sigma);
    lemma_round_rules(s, sigma, a);
    assert forall|j: int| 0 <= j < a.len() && (#[trigger] a[j]) < s.len() - 1 implies 0
        <= rule_index(eq, j) < round_rules(s, sigma).len() by {
        lemma_substring(s, sigma, a, 0);
    }
}

/// How the builder goes on from a state: with the text as start rule
/// where the round emits nothing, and else from the state the round
/// leads to, whose text is shorter by at least the number of rules
/// emitted.
pub proof fn lemma_round_next(s: Seq<usize>, rules: Seq<Seq<usize>>)
    requires
        is_state(s, rules),
    ensures
        ({
            let fresh = round_rules(s, 256 + rules.len() as int);
            let next = round_text(s, rules);
            &&& fresh.len() + next.len() <= s.len()
            &&& forall|x: int| 0 <= x < fresh.len() ==> (#[trigger] fresh[x]).len() <= s.len()
            &&& fresh.len() == 0 ==> built(s, rules) == rules.push(s)
            &&& fresh.len() > 0 ==> next.len() < s.len() && is_state(next, rules + fresh) && built(
                s,
                rules,
            ) == built(next, rules + fresh)
        }),
{
    lemma_round(s, rules);
}

} // verus!
