//! Grammars as lists of rules, and one round of the construction as
//! functions on sequences: which rules a round emits and what it rewrites
//! the text to.

use crate::induce::lms_sorted;
use crate::packed::{rank0_of, IntVector};
use crate::text::{ls_types, next_lms};
use crate::width::ceil_log2;
use vstd::prelude::*;

verus! {

/// The rules a vector of packed rules stands for.
pub open spec fn rules_view(rules: Seq<IntVector>) -> Seq<Seq<usize>> {
    Seq::new(rules.len(), |k: int| rules[k]@)
}

/// One past the end of the LMS substring that starts at `a`: it takes in
/// the next LMS position, or the last position where there is none.
pub open spec fn substring_end(t: Seq<bool>, a: int) -> int {
    next_lms(t, a) + 1
}

/// The ends of the LMS substrings that start at the positions `a`.
pub open spec fn substring_ends(t: Seq<bool>, a: Seq<usize>) -> Seq<usize> {
    Seq::new(a.len(), |j: int| substring_end(t, a[j] as int) as usize)
}

/// For each of the substrings `s[a[j]..e[j])`, whether it equals the one
/// before it in the list. The first has none before it.
pub open spec fn equal_flags(s: Seq<usize>, a: Seq<usize>, e: Seq<usize>) -> Seq<bool> {
    Seq::new(
        a.len(),
        |j: int|
            j > 0 && s.subrange(a[j - 1] as int, e[j - 1] as int) == s.subrange(
                a[j] as int,
                e[j] as int,
            ),
    )
}

/// Whether the substring at index `j` opens a run of the walk that emits
/// rules: the first does, one that differs from its predecessor does, and
/// the last always does.
pub open spec fn is_head(eq: Seq<bool>, j: int) -> bool {
    j == 0 || j == eq.len() - 1 || !eq[j]
}

/// The rules emitted for the first `k` substrings: each run head gives
/// its substring without the last symbol, unless that is empty.
pub open spec fn emitted(
    s: Seq<usize>,
    a: Seq<usize>,
    e: Seq<usize>,
    eq: Seq<bool>,
    k: int,
) -> Seq<Seq<usize>>
    decreases k,
{
    if k <= 0 {
        Seq::empty()
    } else if is_head(eq, k - 1) && a[k - 1] < e[k - 1] - 1 {
        emitted(s, a, e, eq, k - 1).push(s.subrange(a[k - 1] as int, e[k - 1] - 1))
    } else {
        emitted(s, a, e, eq, k - 1)
    }
}

/// The largest index below `k` at which `a` holds the position `p`, or
/// `-1`.
pub open spec fn last_index_of(a: Seq<usize>, p: int, k: int) -> int
    decreases k,
{
    if k <= 0 {
        -1
    } else if a[k - 1] == p {
        k - 1
    } else {
        last_index_of(a, p, k - 1)
    }
}

/// The symbol that replaces the substring at index `j` of the sorted list:
/// the rule that its run of equal substrings emitted. Ranks count from
/// one, and the first run, that of the sentinel, emits no rule.
pub open spec fn rule_index(eq: Seq<bool>, j: int) -> int {
    rank0_of(eq, j) - 2
}

/// The text from position `i` on, with every substring that starts at a
/// position listed in `a` replaced by the symbol of its rule, and the
/// sentinel at the end. A rule that reaches past the sentinel ends the
/// walk.
pub open spec fn rewritten_from(
    s: Seq<usize>,
    a: Seq<usize>,
    eq: Seq<bool>,
    rules: Seq<Seq<usize>>,
    before: int,
    i: int,
) -> Seq<usize>
    decreases s.len() - i,
{
    if i < 0 || i >= s.len() - 1 {
        seq![0usize]
    } else {
        let j = last_index_of(a, i, a.len() as int);
        if j >= 0 {
            let rule = before + rule_index(eq, j);
            let len = rules[rule].len() as int;
            let next = if len < 1 {
                i + 1
            } else if i + len < s.len() {
                i + len
            } else {
                s.len() - 1
            };
            seq![(256 + rule) as usize] + rewritten_from(s, a, eq, rules, before, next)
        } else {
            seq![s[i]] + rewritten_from(s, a, eq, rules, before, i + 1)
        }
    }
}

/// The whole text rewritten.
pub open spec fn rewritten(
    s: Seq<usize>,
    a: Seq<usize>,
    eq: Seq<bool>,
    rules: Seq<Seq<usize>>,
    before: int,
) -> Seq<usize> {
    rewritten_from(s, a, eq, rules, before, 0)
}

/// Substrings that open no run add no rule.
pub proof fn lemma_emitted_skip(
    s: Seq<usize>,
    a: Seq<usize>,
    e: Seq<usize>,
    eq: Seq<bool>,
    lo: int,
    hi: int,
)
    requires
        0 <= lo <= hi,
        forall|k: int| lo <= k < hi ==> !is_head(eq, k),
    ensures
        emitted(s, a, e, eq, hi) == emitted(s, a, e, eq, lo),
    decreases hi - lo,
{
    if lo < hi {
        lemma_emitted_skip(s, a, e, eq, lo, hi - 1);
    }
}

/// Past the sentinel's position nothing but the sentinel is left to
/// write.
pub proof fn lemma_rewritten_end(
    s: Seq<usize>,
    a: Seq<usize>,
    eq: Seq<bool>,
    rules: Seq<Seq<usize>>,
    before: int,
    i: int,
)
    requires
        i >= s.len() - 1,
    ensures
        rewritten_from(s, a, eq, rules, before, i) == seq![0usize],
{
}

/// The rules one round emits for the text `s` over the alphabet
/// `0..sigma`.
pub open spec fn round_rules(s: Seq<usize>, sigma: int) -> Seq<Seq<usize>> {
    let a = lms_sorted(s, sigma);
    let e = substring_ends(ls_types(s), a);
    emitted(s, a, e, equal_flags(s, a, e), a.len() as int)
}

/// The text one round rewrites `s` to, when `rules` are the rules of the
/// rounds before.
pub open spec fn round_text(s: Seq<usize>, rules: Seq<Seq<usize>>) -> Seq<usize> {
    let sigma = 256 + rules.len() as int;
    let a = lms_sorted(s, sigma);
    let e = substring_ends(ls_types(s), a);
    rewritten(s, a, equal_flags(s, a, e), rules + round_rules(s, sigma), rules.len() as int)
}

/// The grammar the builder arrives at from the text `s` and the rules
/// `rules`: round after round until one emits no rule, and then the text
/// that is left as the start rule.
pub open spec fn built(s: Seq<usize>, rules: Seq<Seq<usize>>) -> Seq<Seq<usize>>
    decreases s.len(),
{
    let fresh = round_rules(s, 256 + rules.len() as int);
    let next = round_text(s, rules);
    if fresh.len() == 0 || next.len() >= s.len() {
        rules.push(s)
    } else {
        built(next, rules + fresh)
    }
}

/// The element widths of the rules a vector of packed rules holds.
pub open spec fn rule_widths(rules: Seq<IntVector>) -> Seq<nat> {
    Seq::new(rules.len(), |k: int| rules[k].width())
}

/// The element widths of the rules the builder arrives at from the text
/// `s` of element width `width` and rules of the widths `widths`: the
/// rules of a round are as wide as the round's alphabet asks, and the
/// text widens with every round that outgrows it.
pub open spec fn built_widths(
    s: Seq<usize>,
    rules: Seq<Seq<usize>>,
    widths: Seq<nat>,
    width: nat,
) -> Seq<nat>
    decreases s.len(),
{
    let sigma = 256 + rules.len();
    let fresh = round_rules(s, sigma as int);
    let next = round_text(s, rules);
    if fresh.len() == 0 || next.len() >= s.len() {
        widths.push(width)
    } else {
        let grown = ceil_log2(sigma + fresh.len());
        built_widths(
            next,
            rules + fresh,
            widths + Seq::new(fresh.len(), |k: int| ceil_log2(sigma)),
            if grown > width {
                grown
            } else {
                width
            },
        )
    }
}

/// The element widths of the rules of the grammar of a byte string. The
/// bytes take eight bits each.
pub open spec fn widths_of(data: Seq<u8>) -> Seq<nat> {
    built_widths(text_of(data), Seq::empty(), Seq::empty(), 8)
}

/// The text the builder starts from: the bytes, and the sentinel.
pub open spec fn text_of(data: Seq<u8>) -> Seq<usize> {
    Seq::new(
        data.len() + 1,
        |i: int|
            if i < data.len() {
                data[i] as usize
            } else {
                0usize
            },
    )
}

/// The grammar of a byte string.
pub open spec fn grammar_of(data: Seq<u8>) -> Seq<Seq<usize>> {
    built(text_of(data), Seq::empty())
}

/// The string that the symbols `syms` derive: a symbol below 256 stands
/// for itself, the symbol `256 + k` for what rule `k` derives. Only rules
/// below `bound` count, and a rule sees only the rules before it.
pub open spec fn expand(rules: Seq<Seq<usize>>, syms: Seq<usize>, bound: int) -> Seq<usize>
    decreases bound, syms.len(),
{
    if syms.len() == 0 {
        Seq::empty()
    } else {
        let head = syms[0] as int;
        let first = if head < 256 {
            seq![syms[0]]
        } else if head - 256 < bound && head - 256 < rules.len() {
            expand(rules, rules[head - 256], head - 256)
        } else {
            Seq::empty()
        };
        first + expand(rules, syms.drop_first(), bound)
    }
}

/// The string a grammar derives from its start rule, the last one.
pub open spec fn expansion(rules: Seq<Seq<usize>>) -> Seq<usize> {
    if rules.len() == 0 {
        Seq::empty()
    } else {
        expand(rules, rules.last(), rules.len() - 1)
    }
}

/// Every rule refers to terminals and to rules before it only.
pub open spec fn is_acyclic(rules: Seq<Seq<usize>>) -> bool {
    forall|k: int, j: int|
        0 <= k < rules.len() && 0 <= j < rules[k].len() ==> (#[trigger] rules[k][j]) < 256 + k
}

/// What two strings of symbols derive, one after the other, is what their
/// concatenation derives.
pub proof fn lemma_expand_append(rules: Seq<Seq<usize>>, x: Seq<usize>, y: Seq<usize>, bound: int)
    ensures
        expand(rules, x + y, bound) == expand(rules, x, bound) + expand(rules, y, bound),
    decreases x.len(),
{
    if x.len() == 0 {
        assert(x + y =~= y);
        assert(expand(rules, x, bound) + expand(rules, y, bound) =~= expand(rules, y, bound));
    } else {
        assert((x + y).drop_first() =~= x.drop_first() + y);
        assert((x + y)[0] == x[0]);
        lemma_expand_append(rules, x.drop_first(), y, bound);
        let head = x[0] as int;
        let first = if head < 256 {
            seq![x[0]]
        } else if head - 256 < bound && head - 256 < rules.len() {
            expand(rules, rules[head - 256], head - 256)
        } else {
            Seq::empty()
        };
        assert(first + (expand(rules, x.drop_first(), bound) + expand(rules, y, bound)) =~= (first
            + expand(rules, x.drop_first(), bound)) + expand(rules, y, bound));
    }
}

/// Symbols that all lie below a bound derive the same under any larger
/// bound.
pub proof fn lemma_expand_bound(rules: Seq<Seq<usize>>, syms: Seq<usize>, b1: int, b2: int)
    requires
        b1 <= b2,
        forall|i: int| 0 <= i < syms.len() ==> (#[trigger] syms[i]) < 256 + b1,
    ensures
        expand(rules, syms, b1) == expand(rules, syms, b2),
    decreases syms.len(),
{
    if syms.len() > 0 {
        assert forall|i: int| 0 <= i < syms.drop_first().len() implies (#[trigger] syms.drop_first()[i])
            < 256 + b1 by {
            assert(syms.drop_first()[i] == syms[i + 1]);
        }
        lemma_expand_bound(rules, syms.drop_first(), b1, b2);
    }
}

/// Rules appended to a grammar change nothing of what the rules before
/// them derive.
pub proof fn lemma_expand_extend(
    rules: Seq<Seq<usize>>,
    more: Seq<Seq<usize>>,
    syms: Seq<usize>,
    bound: int,
)
    requires
        bound <= rules.len(),
    ensures
        expand(rules + more, syms, bound) == expand(rules, syms, bound),
    decreases bound, syms.len(),
{
    if syms.len() > 0 {
        let head = syms[0] as int;
        if head >= 256 && head - 256 < bound {
            assert((rules + more)[head - 256] == rules[head - 256]);
            lemma_expand_extend(rules, more, rules[head - 256], head - 256);
        }
        lemma_expand_extend(rules, more, syms.drop_first(), bound);
    }
}

/// Terminals derive themselves.
pub proof fn lemma_expand_terminals(rules: Seq<Seq<usize>>, syms: Seq<usize>, bound: int)
    requires
        forall|i: int| 0 <= i < syms.len() ==> (#[trigger] syms[i]) < 256,
    ensures
        expand(rules, syms, bound) == syms,
    decreases syms.len(),
{
    if syms.len() > 0 {
        assert forall|i: int| 0 <= i < syms.drop_first().len() implies (#[trigger] syms.drop_first()[i])
            < 256 by {
            assert(syms.drop_first()[i] == syms[i + 1]);
        }
        lemma_expand_terminals(rules, syms.drop_first(), bound);
        assert(seq![syms[0]] + syms.drop_first() =~= syms);
    } else {
        assert(syms =~= Seq::<usize>::empty());
    }
}

/// A single symbol derives what `expand` gives for it alone.
pub proof fn lemma_expand_single(rules: Seq<Seq<usize>>, sym: usize, bound: int)
    ensures
        expand(rules, seq![sym], bound) == if sym < 256 {
            seq![sym]
        } else if sym - 256 < bound && sym - 256 < rules.len() {
            expand(rules, rules[sym - 256], sym - 256)
        } else {
            Seq::empty()
        },
{
    let syms = seq![sym];
    assert(syms.drop_first() =~= Seq::<usize>::empty());
    assert(expand(rules, syms.drop_first(), bound) =~= Seq::<usize>::empty());
    let first = if sym < 256 {
        seq![sym]
    } else if sym - 256 < bound && sym - 256 < rules.len() {
        expand(rules, rules[sym - 256], sym - 256)
    } else {
        Seq::empty()
    };
    assert(first + Seq::<usize>::empty() =~= first);
}

/// The first `k` of the byte strings `parts`, each followed by a zero
/// byte.
pub open spec fn framed(parts: Seq<Seq<u8>>, k: int) -> Seq<u8>
    decreases k,
{
    if k <= 0 {
        Seq::empty()
    } else {
        framed(parts, k - 1) + parts[k - 1] + seq![0u8]
    }
}

/// The byte strings `parts` with a zero byte between each two.
pub open spec fn joined(parts: Seq<Seq<u8>>) -> Seq<u8> {
    if parts.len() == 0 {
        Seq::empty()
    } else {
        framed(parts, parts.len() as int).drop_last()
    }
}

/// The last index at which a position is listed lies within the list.
pub proof fn lemma_last_index_range(a: Seq<usize>, p: int, k: int)
    requires
        0 <= k <= a.len(),
    ensures
        -1 <= last_index_of(a, p, k) < k,
        last_index_of(a, p, k) >= 0 ==> a[last_index_of(a, p, k)] == p,
        last_index_of(a, p, k) < 0 ==> forall|j: int| 0 <= j < k ==> a[j] != p,
    decreases k,
{
    if k > 0 {
        lemma_last_index_range(a, p, k - 1);
    }
}

} // verus!
