//! The grammar builder: rounds of LMS substring replacement until no rule
//! is left to emit.

use crate::grammar::{
    built, built_widths, emitted, equal_flags, expansion, framed, grammar_of, is_acyclic, is_head,
    joined, last_index_of, lemma_emitted_skip, lemma_last_index_range, lemma_rewritten_end,
    rewritten, rewritten_from, round_rules, rule_index, rule_widths, rules_view, substring_end,
    substring_ends, text_of, widths_of,
};
use crate::induce::{is_lms_order, lemma_order_len, lms_sorted};
use crate::iss::{copy_with_width, iss, LS};
use crate::packed::{
    fits, lemma_storable_len, lemma_storable_smaller, storable, BitVector, IntVector, Rank9,
};
use crate::round::{
    is_state, lemma_no_cycles, lemma_round_next, lemma_round_ranks, lemma_round_substrings,
    lemma_round_trip, lemma_text_of,
};
use crate::text::{
    is_lms, is_text, lemma_next_lms, lemma_next_lms_found, lemma_next_lms_none, lemma_text_symbols,
    ls_types,
};
use crate::width::{
    ceil_log2, ceil_log2_of, lemma_ceil_log2_is_least, lemma_ceil_log2_word, lemma_pow2_monotone,
    low_mask,
};
use vstd::arithmetic::power2::pow2;
use vstd::prelude::*;
use vstd::string::StrSliceExecFns;
use vstd::utf8::encode_utf8;

verus! {

/// Whether the builder can take on `data`: it holds no zero byte, which
/// is the sentinel's alone, and with the sentinel and every symbol a rule
/// may get it stays within what a packed vector of machine words can
/// store.
pub open spec fn compressible(data: Seq<u8>) -> bool {
    &&& forall|i: int| 0 <= i < data.len() ==> #[trigger] data[i] != 0
    &&& storable(usize::BITS as int, data.len() as int + 258)
}

/// The byte strings a vector of byte vectors holds.
pub open spec fn byte_views(parts: Seq<Vec<u8>>) -> Seq<Seq<u8>> {
    Seq::new(parts.len(), |i: int| parts[i]@)
}

/// The UTF-8 bytes of the strings a vector of strings holds.
pub open spec fn string_bytes(parts: Seq<String>) -> Seq<Seq<u8>> {
    Seq::new(parts.len(), |i: int| encode_utf8(parts[i]@))
}

/// Builds the grammar of the bytes of `s`.
pub fn compress(s: String) -> (rules: Vec<IntVector>)
    requires
        compressible(encode_utf8(s@)),
    ensures
        rules_view(rules@) == grammar_of(encode_utf8(s@)),
        rule_widths(rules@) == widths_of(encode_utf8(s@)),
        expansion(rules_view(rules@)) == text_of(encode_utf8(s@)),
        is_acyclic(rules_view(rules@)),
{
    compress_raw(s.as_str().as_bytes_vec())
}

/// Builds the grammar of the strings in `iterable`, joined with a zero
/// byte between each two. As the builder takes no zero byte but its own
/// sentinel, this admits one string at most.
pub fn compress_multiple(iterable: Vec<String>) -> (rules: Vec<IntVector>)
    requires
        compressible(joined(string_bytes(iterable@))),
    ensures
        rules_view(rules@) == grammar_of(joined(string_bytes(iterable@))),
        rule_widths(rules@) == widths_of(joined(string_bytes(iterable@))),
        expansion(rules_view(rules@)) == text_of(joined(string_bytes(iterable@))),
        is_acyclic(rules_view(rules@)),
{
    let mut parts: Vec<Vec<u8>> = Vec::new();
    let mut i: usize = 0;
    while i < iterable.len()
        invariant
            i <= iterable@.len(),
            parts@.len() == i,
            byte_views(parts@) == string_bytes(iterable@).take(i as int),
        decreases iterable@.len() - i,
    {
        let bytes = iterable[i].as_str().as_bytes_vec();
        let ghost before = byte_views(parts@);
        let ghost added = bytes@;
        proof {
            assert(added == encode_utf8(iterable@[i as int]@));
        }
        parts.push(bytes);
        proof {
            let now = byte_views(parts@);
            let want = string_bytes(iterable@).take(i as int + 1);
            assert(now.len() == want.len());
            assert forall|k: int| 0 <= k < now.len() implies now[k] == want[k] by {
                if k < i {
                    assert(now[k] == before[k]);
                    assert(before[k] == string_bytes(iterable@).take(i as int)[k]);
                }
            }
            assert(now =~= want);
        }
        i = i + 1;
    }
    proof {
        assert(string_bytes(iterable@).take(i as int) =~= string_bytes(iterable@));
    }
    compress_multiple_raw(parts)
}

/// Builds the grammar of the byte strings in `iterable`, joined with a
/// zero byte between each two. As the builder takes no zero byte but its
/// own sentinel, this admits one string at most.
pub fn compress_multiple_raw(iterable: Vec<Vec<u8>>) -> (rules: Vec<IntVector>)
    requires
        compressible(joined(byte_views(iterable@))),
    ensures
        rules_view(rules@) == grammar_of(joined(byte_views(iterable@))),
        rule_widths(rules@) == widths_of(joined(byte_views(iterable@))),
        expansion(rules_view(rules@)) == text_of(joined(byte_views(iterable@))),
        is_acyclic(rules_view(rules@)),
{
    let ghost parts = byte_views(iterable@);
    let mut input: Vec<u8> = Vec::new();
    let mut i: usize = 0;
    while i < iterable.len()
        invariant
            i <= iterable@.len(),
            parts == byte_views(iterable@),
            input@ == framed(parts, i as int),
        decreases iterable@.len() - i,
    {
        let part = &iterable[i];
        let ghost start = input@;
        let mut k: usize = 0;
        while k < part.len()
            invariant
                k <= part@.len(),
                input@ == start + part@.take(k as int),
            decreases part@.len() - k,
        {
            input.push(part[k]);
            proof {
                assert(part@.take(k as int).push(part@[k as int]) =~= part@.take(k as int + 1));
                assert(input@ =~= start + part@.take(k as int + 1));
            }
            k = k + 1;
        }
        input.push(0);
        proof {
            assert(part@.take(k as int) =~= part@);
            assert(parts[i as int] == part@);
            assert(input@ =~= framed(parts, i as int) + parts[i as int] + seq![0u8]);
        }
        i = i + 1;
    }
    // One sentinel too many: the builder appends its own.
    input.pop();
    proof {
        if parts.len() == 0 {
            assert(input@ =~= Seq::<u8>::empty());
        }
    }
    compress_raw(input)
}

/// Whether `v1[i1..j1)` and `v2[i2..j2)` hold the same symbols.
fn vec_range_eq(
    v1: &IntVector,
    v2: &IntVector,
    i1: usize,
    j1: usize,
    i2: usize,
    j2: usize,
) -> (same: bool)
    requires
        i1 <= j1 <= v1@.len(),
        i2 <= j2 <= v2@.len(),
    ensures
        same == (v1@.subrange(i1 as int, j1 as int) == v2@.subrange(i2 as int, j2 as int)),
{
    let ghost r1 = v1@.subrange(i1 as int, j1 as int);
    let ghost r2 = v2@.subrange(i2 as int, j2 as int);
    if j1 - i1 != j2 - i2 {
        proof {
            assert(r1.len() != r2.len());
        }
        return false;
    }
    let len = j1 - i1;
    let mut i: usize = 0;
    while i < len
        invariant
            i <= len,
            len == j1 - i1,
            len == j2 - i2,
            i1 <= j1 <= v1@.len(),
            i2 <= j2 <= v2@.len(),
            r1 == v1@.subrange(i1 as int, j1 as int),
            r2 == v2@.subrange(i2 as int, j2 as int),
            forall|k: int| 0 <= k < i ==> r1[k] == r2[k],
        decreases len - i,
    {
        if v1.get(i1 + i) != v2.get(i2 + i) {
            proof {
                assert(r1[i as int] != r2[i as int]);
            }
            return false;
        }
        i = i + 1;
    }
    proof {
        assert(r1 =~= r2);
    }
    true
}

/// Sorts the LMS positions of `input` and pairs each with the end of its
/// LMS substring and with a flag that says whether the substring equals
/// the one before it in sorted order.
fn calculate_lms_data(input: &IntVector, max_symbol: usize, input_bits: usize) -> (res: (
    IntVector,
    IntVector,
    BitVector,
))
    requires
        is_text(input@, max_symbol as int),
        input_bits == ceil_log2((input@.len() + 1) as nat),
        storable(usize::BITS as int, input@.len() as int + 1),
        storable(usize::BITS as int, max_symbol as int),
    ensures
        res.0@ == lms_sorted(input@, max_symbol as int),
        is_lms_order(input@, res.0@),
        res.1@ == substring_ends(ls_types(input@), res.0@),
        res.2@ == equal_flags(input@, res.0@, res.1@),
        res.0.width() == usize::BITS,
{
    let n = input.len();
    proof {
        lemma_storable_len(usize::BITS as int, n as int + 1);
        lemma_storable_smaller(1, n as int, usize::BITS as int, n as int + 1);
        lemma_ceil_log2_is_least((n + 1) as nat);
        lemma_ceil_log2_word((n + 1) as usize);
        assert(ceil_log2((n + 1) as nat) == 1 + ceil_log2(((n + 2) / 2) as nat));
    }
    let ls = LS::from(input);
    let lms_substring_starts = iss(input, &ls, max_symbol);
    let m = lms_substring_starts.len();
    let ghost t = ls_types(input@);
    let ghost a = lms_substring_starts@;
    proof {
        lemma_order_len(input@, a);
        lemma_storable_smaller(input_bits as int, m as int, usize::BITS as int, n as int + 1);
        lemma_storable_smaller(1, m as int, usize::BITS as int, n as int + 1);
    }
    // The end indices (exclusive) of the LMS substrings.
    let mut lms_substring_ends = IntVector::with_capacity(input_bits, m);
    let mut j: usize = 0;
    while j < m
        invariant
            j <= m,
            m == a.len(),
            m <= n,
            a == lms_substring_starts@,
            t == ls_types(input@),
            ls.wf(),
            ls@ == t,
            n == input@.len(),
            n + 1 <= pow2(input_bits as nat),
            is_lms_order(input@, a),
            storable(input_bits as int, m as int),
            lms_substring_ends.width() == input_bits,
            lms_substring_ends@ == substring_ends(t, a).take(j as int),
        decreases m - j,
    {
        let v = lms_substring_starts.get(j);
        proof {
            assert(is_lms(input@, a[j as int] as int));
        }
        let end = match ls.next_lms_index(v) {
            Some(k) => {
                proof {
                    lemma_next_lms_found(t, v as int, k as int);
                }
                k + 1
            },
            None => {
                proof {
                    lemma_next_lms_none(t, v as int);
                }
                n - 1 + 1
            },
        };
        proof {
            lemma_storable_smaller(input_bits as int, j as int + 1, input_bits as int, m as int);
            assert(end == substring_ends(t, a)[j as int]);
        }
        lms_substring_ends.push(end);
        proof {
            assert(substring_ends(t, a).take(j as int).push(end) =~= substring_ends(t, a).take(
                j as int + 1,
            ));
        }
        j = j + 1;
    }
    proof {
        assert(substring_ends(t, a).take(m as int) =~= substring_ends(t, a));
    }
    let ghost e = lms_substring_ends@;
    // A bit vector that is 1 where a substring and the one before it are
    // the same.
    let mut same_lms_str = BitVector::with_fill(m, false);
    let mut i: usize = 1;
    while i < m
        invariant
            1 <= i,
            m == a.len(),
            a == lms_substring_starts@,
            e == lms_substring_ends@,
            e == substring_ends(t, a),
            t == ls_types(input@),
            n == input@.len(),
            is_lms_order(input@, a),
            same_lms_str@.len() == m,
            forall|k: int| 0 <= k < i && k < m ==> same_lms_str@[k] == equal_flags(input@, a, e)[k],
        decreases m - i,
    {
        let a0 = lms_substring_starts.get(i - 1);
        let e0 = lms_substring_ends.get(i - 1);
        let a1 = lms_substring_starts.get(i);
        let e1 = lms_substring_ends.get(i);
        proof {
            lemma_substring_bounds(input@, a[i - 1] as int);
            lemma_substring_bounds(input@, a[i as int] as int);
        }
        let same = vec_range_eq(input, input, a0, e0, a1, e1);
        same_lms_str.set_bit(i, same);
        i = i + 1;
    }
    proof {
        assert(same_lms_str@ =~= equal_flags(input@, a, e));
    }
    (lms_substring_starts, lms_substring_ends, same_lms_str)
}

/// The LMS substring that starts at an LMS position lies within the text.
pub proof fn lemma_substring_bounds(s: Seq<usize>, a: int)
    requires
        is_lms(s, a),
    ensures
        0 < a < substring_end(ls_types(s), a) <= s.len(),
{
    let t = ls_types(s);
    if a < s.len() - 1 {
        lemma_next_lms(t, a);
    }
}

/// Walks the sorted LMS substrings run by run and appends one rule for
/// each run head whose substring, without its last symbol, is not empty.
/// Returns the number of rules appended.
fn generate_rules(
    lms_pos: &IntVector,
    lms_substring_ends: &IntVector,
    same_lms_str: &BitVector,
    rules: &mut Vec<IntVector>,
    input: &IntVector,
    max_symbol: usize,
) -> (new_symbol_count: usize)
    requires
        lms_pos@.len() == lms_substring_ends@.len(),
        lms_pos@.len() == same_lms_str@.len(),
        forall|j: int|
            0 <= j < lms_pos@.len() ==> (#[trigger] lms_pos@[j]) < lms_substring_ends@[j]
                <= input@.len(),
        forall|i: int| 0 <= i < input@.len() ==> #[trigger] input@[i] < max_symbol,
        max_symbol >= 2,
        storable(usize::BITS as int, input@.len() as int + 1),
    ensures
        rules_view(final(rules)@) == rules_view(old(rules)@) + emitted(
            input@,
            lms_pos@,
            lms_substring_ends@,
            same_lms_str@,
            lms_pos@.len() as int,
        ),
        new_symbol_count == final(rules)@.len() - old(rules)@.len(),
        final(rules)@.take(old(rules)@.len() as int) == old(rules)@,
        forall|k: int|
            old(rules)@.len() <= k < final(rules)@.len() ==> (#[trigger] final(rules)@[k]).width()
                == ceil_log2(max_symbol as nat),
{
    let n = lms_pos.len();
    let ghost a = lms_pos@;
    let ghost e = lms_substring_ends@;
    let ghost eq = same_lms_str@;
    let ghost before = rules_view(rules@);
    proof {
        lemma_ceil_log2_is_least(max_symbol as nat);
        assert(ceil_log2(max_symbol as nat) == 1 + ceil_log2(((max_symbol + 1) / 2) as nat));
        assert(rules_view(rules@) =~= before + emitted(input@, a, e, eq, 0));
        assert(rules@.take(rules@.len() as int) =~= rules@);
    }
    let symbol_bits = ceil_log2_of(max_symbol);
    let mut new_symbol_count: usize = 0;
    let mut i: usize = 0;
    while i < n
        invariant
            i <= n,
            n == a.len(),
            a == lms_pos@,
            e == lms_substring_ends@,
            eq == same_lms_str@,
            e.len() == n,
            eq.len() == n,
            forall|j: int| 0 <= j < n ==> (#[trigger] a[j]) < e[j] <= input@.len(),
            forall|i: int| 0 <= i < input@.len() ==> #[trigger] input@[i] < max_symbol,
            storable(usize::BITS as int, input@.len() as int + 1),
            1 <= symbol_bits <= usize::BITS,
            max_symbol <= pow2(symbol_bits as nat),
            i < n ==> is_head(eq, i as int),
            rules_view(rules@) == before + emitted(input@, a, e, eq, i as int),
            new_symbol_count == rules@.len() - old(rules)@.len(),
            new_symbol_count <= i,
            symbol_bits == ceil_log2(max_symbol as nat),
            rules@.take(old(rules)@.len() as int) == old(rules)@,
            forall|k: int|
                old(rules)@.len() <= k < rules@.len() ==> (#[trigger] rules@[k]).width()
                    == symbol_bits,
        decreases n - i,
    {
        // Neighbouring substrings overlap in one symbol, so the last
        // symbol of each is left out.
        let lms_substring_start = lms_pos.get(i);
        let lms_substring_end = lms_substring_ends.get(i) - 1;
        let mut r = i + 1;
        while r < n - 1 && same_lms_str.get_bit(r)
            invariant
                i < r <= n,
                n == eq.len(),
                eq == same_lms_str@,
                forall|k: int| i < k < r ==> !is_head(eq, k),
            decreases n - r,
        {
            r = r + 1;
        }
        let ghost mid = rules_view(rules@);
        if lms_substring_start < lms_substring_end {
            proof {
                assert(a[i as int] < e[i as int] <= input@.len());
                lemma_storable_smaller(
                    symbol_bits as int,
                    (lms_substring_end - lms_substring_start) as int,
                    usize::BITS as int,
                    input@.len() as int + 1,
                );
            }
            let mut vec = IntVector::with_capacity(
                symbol_bits,
                lms_substring_end - lms_substring_start,
            );
            let mut k = lms_substring_start;
            while k < lms_substring_end
                invariant
                    lms_substring_start <= k <= lms_substring_end < input@.len(),
                    forall|i: int| 0 <= i < input@.len() ==> #[trigger] input@[i] < max_symbol,
                    storable(usize::BITS as int, input@.len() as int + 1),
                    1 <= symbol_bits <= usize::BITS,
                    max_symbol <= pow2(symbol_bits as nat),
                    vec.width() == symbol_bits,
                    vec@ == input@.subrange(lms_substring_start as int, k as int),
                decreases lms_substring_end - k,
            {
                let x = input.get(k);
                proof {
                    lemma_storable_smaller(
                        symbol_bits as int,
                        vec@.len() as int + 1,
                        usize::BITS as int,
                        input@.len() as int + 1,
                    );
                }
                vec.push(x);
                proof {
                    assert(input@.subrange(lms_substring_start as int, k as int).push(x)
                        =~= input@.subrange(lms_substring_start as int, k as int + 1));
                }
                k = k + 1;
            }
            let ghost body = vec@;
            let ghost held = rules@;
            rules.push(vec);
            new_symbol_count = new_symbol_count + 1;
            proof {
                assert(rules_view(rules@) =~= mid.push(body));
                assert(rules@.take(old(rules)@.len() as int) =~= held.take(
                    old(rules)@.len() as int,
                ));
            }
        }
        proof {
            assert(emitted(input@, a, e, eq, i as int + 1) == if a[i as int] < e[i as int] - 1 {
                emitted(input@, a, e, eq, i as int).push(
                    input@.subrange(a[i as int] as int, e[i as int] - 1),
                )
            } else {
                emitted(input@, a, e, eq, i as int)
            });
            lemma_emitted_skip(input@, a, e, eq, i as int + 1, r as int);
            assert(rules_view(rules@) =~= before + emitted(input@, a, e, eq, r as int));
        }
        i = r;
    }
    new_symbol_count
}

/// Returns `vec` with elements wide enough for every symbol below
/// `max_symbol`: the vector itself where its width is enough, a copy with
/// wider elements otherwise.
pub fn ensure_representable(vec: IntVector, max_symbol: usize) -> (res: IntVector)
    requires
        storable(usize::BITS as int, vec@.len() as int),
    ensures
        res@ == vec@,
        res.width() == if ceil_log2(max_symbol as nat) > vec.width() {
            ceil_log2(max_symbol as nat)
        } else {
            vec.width()
        },
{
    // New rules are new symbols, which may need more bits.
    let symbol_bits = ceil_log2_of(max_symbol);
    if symbol_bits > vec.element_bits() {
        proof {
            lemma_storable_smaller(
                symbol_bits as int,
                vec@.len() as int,
                usize::BITS as int,
                vec@.len() as int,
            );
        }
        copy_with_width(&vec, symbol_bits)
    } else {
        vec
    }
}

/// What `replace_patterns` asks of the substring at index `j`, where the
/// rewriting can reach it: its rank names a rule that exists, and the
/// rule's symbol fits the elements of the text.
pub open spec fn replaceable(
    eq: Seq<bool>,
    rules: Seq<Seq<usize>>,
    before: int,
    width: nat,
    j: int,
) -> bool {
    &&& 0 <= rule_index(eq, j)
    &&& before + rule_index(eq, j) < rules.len()
    &&& 256 + before + rule_index(eq, j) <= usize::MAX
    &&& fits((256 + before + rule_index(eq, j)) as usize, width)
}

/// Rewrites `input` in place: every LMS substring that starts at a
/// position in `lms_pos` gives way to the symbol of its rule, every other
/// symbol stays, and the sentinel closes the shortened text.
pub fn replace_patterns(
    input: &mut IntVector,
    same_lms_str: BitVector,
    lms_pos: IntVector,
    rules: &[IntVector],
    input_bits: usize,
    rule_count_before: usize,
)
    requires
        old(input)@.len() >= 1,
        1 <= input_bits <= usize::BITS,
        storable(usize::BITS as int, old(input)@.len() as int + 1),
        lms_pos@.len() == same_lms_str@.len(),
        lms_pos@.len() < pow2(input_bits as nat),
        fits(0, old(input).width()),
        forall|j: int| 0 <= j < lms_pos@.len() ==> (#[trigger] lms_pos@[j]) <= old(input)@.len(),
        forall|j: int|
            0 <= j < lms_pos@.len() && (#[trigger] lms_pos@[j]) < old(input)@.len() - 1
                ==> replaceable(
                same_lms_str@,
                rules_view(rules@),
                rule_count_before as int,
                old(input).width(),
                j,
            ),
        forall|k: int| 0 <= k < rules@.len() ==> (#[trigger] rules@[k])@.len() <= isize::MAX,
    ensures
        final(input)@ == rewritten(
            old(input)@,
            lms_pos@,
            same_lms_str@,
            rules_view(rules@),
            rule_count_before as int,
        ),
        final(input).width() == old(input).width(),
{
    let n = input.len();
    let ghost s = input@;
    let ghost a = lms_pos@;
    let ghost eq = same_lms_str@;
    let ghost rv = rules_view(rules@);
    let ghost before = rule_count_before as int;
    proof {
        lemma_storable_len(usize::BITS as int, n as int + 1);
        lemma_storable_smaller(input_bits as int, n as int + 1, usize::BITS as int, n as int + 1);
        vstd::arithmetic::power2::lemma_pow2_pos(input_bits as nat);
    }
    let invalid = low_mask(input_bits);
    // For every position that is in `lms_pos`, its index there.
    let mut lms_index_map = IntVector::with_fill(input_bits, n + 1, invalid);
    let m = lms_pos.len();
    let mut j: usize = 0;
    while j < m
        invariant
            j <= m,
            m == a.len(),
            a == lms_pos@,
            m < pow2(input_bits as nat),
            invalid == pow2(input_bits as nat) - 1,
            forall|j: int| 0 <= j < a.len() ==> (#[trigger] a[j]) <= n,
            lms_index_map.width() == input_bits,
            lms_index_map@.len() == n + 1,
            forall|p: int|
                0 <= p <= n ==> #[trigger] lms_index_map@[p] == if last_index_of(a, p, j as int)
                    >= 0 {
                    last_index_of(a, p, j as int) as usize
                } else {
                    invalid
                },
        decreases m - j,
    {
        let lms = lms_pos.get(j);
        lms_index_map.set(lms, j);
        j = j + 1;
    }
    proof {
        assert forall|p: int| 0 <= p <= n implies last_index_of(a, p, m as int) < m by {
            lemma_last_index_range(a, p, m as int);
        }
    }
    // The rank of a substring's flag gives the index of its rule.
    let same_lms_str_rank = Rank9::new(same_lms_str);
    let mut i: usize = 0;
    let mut new_len: usize = 0;
    proof {
        assert(input@.take(0) + rewritten_from(s, a, eq, rv, before, 0) =~= rewritten(
            s,
            a,
            eq,
            rv,
            before,
        ));
    }
    while i < n - 1
        invariant
            n == s.len(),
            n >= 1,
            n <= isize::MAX,
            new_len <= i,
            new_len <= n - 1,
            input@.len() == n,
            input.width() == old(input).width(),
            fits(0, input.width()),
            forall|k: int| new_len <= k < n ==> input@[k] == s[k],
            a == lms_pos@,
            m == a.len(),
            eq == same_lms_str_rank@,
            eq.len() == m,
            rv == rules_view(rules@),
            before == rule_count_before,
            invalid == pow2(input_bits as nat) - 1,
            m < pow2(input_bits as nat),
            lms_index_map@.len() == n + 1,
            forall|p: int|
                0 <= p <= n ==> #[trigger] lms_index_map@[p] == if last_index_of(a, p, m as int)
                    >= 0 {
                    last_index_of(a, p, m as int) as usize
                } else {
                    invalid
                },
            forall|p: int| 0 <= p <= n ==> last_index_of(a, p, m as int) < m,
            forall|j: int|
                0 <= j < a.len() && (#[trigger] a[j]) < n - 1 ==> replaceable(
                    eq,
                    rv,
                    before,
                    input.width(),
                    j,
                ),
            forall|k: int| 0 <= k < rules@.len() ==> (#[trigger] rules@[k])@.len() <= isize::MAX,
            input@.take(new_len as int) + rewritten_from(s, a, eq, rv, before, i as int)
                == rewritten(s, a, eq, rv, before),
        decreases
                if i < n {
                    n - i
                } else {
                    0
                },
    {
        let ghost done = input@.take(new_len as int);
        let ghost jj = last_index_of(a, i as int, m as int);
        let index = lms_index_map.get(i);
        proof {
            lemma_last_index_range(a, i as int, m as int);
        }
        if index != invalid {
            proof {
                assert(a[jj] == i);
                assert(replaceable(eq, rv, before, input.width(), jj));
            }
            // One less since ranks count from one, and one less again
            // since the sentinel's run has no rule.
            let rule_id = same_lms_str_rank.rank0(index) - 1 - 1;
            input.set(new_len, rule_id + rule_count_before + 256);
            let len = rules[rule_count_before + rule_id].len();
            proof {
                assert(rv[before + rule_id].len() == len);
                let next = if len < 1 {
                    i + 1
                } else if i + len < n {
                    i + len
                } else {
                    n - 1
                };
                if i + len >= n && len >= 1 {
                    lemma_rewritten_end(s, a, eq, rv, before, i + len);
                    lemma_rewritten_end(s, a, eq, rv, before, n - 1);
                }
                assert(input@.take(new_len as int + 1) =~= done.push(
                    (256 + before + rule_id) as usize,
                ));
                assert(done.push((256 + before + rule_id) as usize) + rewritten_from(
                    s,
                    a,
                    eq,
                    rv,
                    before,
                    next,
                ) =~= done + rewritten_from(s, a, eq, rv, before, i as int));
            }
            if len >= 1 {
                i = i + len;
            } else {
                i = i + 1;
            }
        } else {
            let x = input.get(i);
            input.set(new_len, x);
            proof {
                assert(input@.take(new_len as int + 1) =~= done.push(x));
                assert(done.push(x) + rewritten_from(s, a, eq, rv, before, i + 1) =~= done
                    + rewritten_from(s, a, eq, rv, before, i as int));
            }
            i = i + 1;
        }
        new_len = new_len + 1;
    }
    // The sentinel.
    let ghost done = input@.take(new_len as int);
    input.set(new_len, 0);
    new_len = new_len + 1;
    input.truncate(new_len);
    proof {
        lemma_rewritten_end(s, a, eq, rv, before, i as int);
        assert(input@ =~= done + seq![0usize]);
    }
}

/// Builds the grammar of `data`: appends the sentinel, then emits rules
/// for the LMS substrings and rewrites the text with them, round after
/// round, until a round emits no rule; what is left of the text is the
/// start rule.
pub fn compress_raw(data: Vec<u8>) -> (rules: Vec<IntVector>)
    requires
        compressible(data@),
    ensures
        rules_view(rules@) == grammar_of(data@),
        rule_widths(rules@) == widths_of(data@),
        expansion(rules_view(rules@)) == text_of(data@),
        is_acyclic(rules_view(rules@)),
{
    let n0 = data.len();
    proof {
        lemma_storable_len(usize::BITS as int, n0 as int + 258);
        lemma_storable_smaller(8, n0 as int + 1, usize::BITS as int, n0 as int + 258);
        vstd::arithmetic::power2::lemma2_to64();
    }
    let mut input = IntVector::with_capacity(8, n0 + 1);
    let mut i: usize = 0;
    while i < n0
        invariant
            i <= n0,
            n0 == data@.len(),
            storable(8, n0 as int + 1),
            pow2(8) == 256,
            input.width() == 8,
            input@ == text_of(data@).take(i as int),
        decreases n0 - i,
    {
        let v = data[i];
        proof {
            lemma_storable_smaller(8, i as int + 1, 8, n0 as int + 1);
        }
        input.push(v as usize);
        proof {
            assert(text_of(data@).take(i as int).push(v as usize) =~= text_of(data@).take(
                i as int + 1,
            ));
        }
        i = i + 1;
    }
    input.push(0);
    let mut rules: Vec<IntVector> = Vec::new();
    proof {
        assert(input@ =~= text_of(data@));
        assert(rules_view(rules@) =~= Seq::<Seq<usize>>::empty());
        lemma_text_of(data@);
        lemma_round_trip(data@);
        lemma_no_cycles(data@);
    }
    loop
        invariant_except_break
            is_state(input@, rules_view(rules@)),
            rules@.len() + input@.len() <= n0 + 1,
            forall|k: int| 0 <= k < rules@.len() ==> (#[trigger] rules@[k])@.len() <= isize::MAX,
        invariant
            n0 == data@.len(),
            storable(usize::BITS as int, n0 as int + 258),
            built(input@, rules_view(rules@)) == grammar_of(data@),
            built_widths(input@, rules_view(rules@), rule_widths(rules@), input.width())
                == widths_of(data@),
        ensures
            built(input@, rules_view(rules@)) == rules_view(rules@).push(input@),
            built_widths(input@, rules_view(rules@), rule_widths(rules@), input.width())
                == rule_widths(rules@).push(input.width()),
        decreases input@.len(),
    {
        let ghost s = input@;
        let ghost rv = rules_view(rules@);
        let ghost widths = rule_widths(rules@);
        let ghost width = input.width();
        let rules_before = rules.len();
        let max_symbol = 256 + rules_before;
        let n = input.len();
        proof {
            lemma_storable_len(usize::BITS as int, n0 as int + 258);
            lemma_storable_smaller(
                usize::BITS as int,
                n as int + 1,
                usize::BITS as int,
                n0 as int + 258,
            );
            lemma_storable_smaller(
                usize::BITS as int,
                max_symbol as int,
                usize::BITS as int,
                n0 as int + 258,
            );
            lemma_text_symbols(s, max_symbol as int);
            lemma_input_bits(n);
            lemma_round_substrings(s, max_symbol as int);
            lemma_round_next(s, rv);
        }
        let input_bits = ceil_log2_of(n + 1);

        // The starts and ends of the LMS substrings in sorted order, and
        // which of them equal their predecessors.
        let (lms_substring_starts, lms_substring_ends, same_lms_str) = calculate_lms_data(
            &input,
            max_symbol,
            input_bits,
        );
        let additional_rules = generate_rules(
            &lms_substring_starts,
            &lms_substring_ends,
            &same_lms_str,
            &mut rules,
            &input,
            max_symbol,
        );
        let ghost fresh = round_rules(s, max_symbol as int);
        proof {
            assert(rules_view(rules@) == rv + fresh);
            lemma_widths_grow(rules@, widths, rules_before as int, max_symbol as nat);
        }
        // No new rule: the text is the start rule.
        if additional_rules == 0 {
            proof {
                assert(rules_view(rules@) =~= rv);
                assert(rule_widths(rules@) =~= widths);
            }
            break;
        }
        input = ensure_representable(input, max_symbol + additional_rules);
        proof {
            lemma_round_ranks(s, max_symbol as int);
            lemma_symbols_fit(
                same_lms_str@,
                rules_view(rules@),
                rules_before as int,
                additional_rules as int,
                input.width(),
            );
            lemma_rule_lengths(rules@, rv, fresh, s.len() as int);
        }
        replace_patterns(
            &mut input,
            same_lms_str,
            lms_substring_starts,
            rules.as_slice(),
            input_bits,
            rules_before,
        );
    }
    let ghost rv = rules_view(rules@);
    let ghost widths = rule_widths(rules@);
    let ghost last = input@;
    let ghost last_width = input.width();
    rules.push(input);
    proof {
        assert(rules_view(rules@) =~= rv.push(last));
        assert(rule_widths(rules@) =~= widths.push(last_width));
    }
    rules
}

/// The widths of a vector of rules that has grown by rules of one width
/// are the widths before and that width for every rule more.
proof fn lemma_widths_grow(rules: Seq<IntVector>, widths: Seq<nat>, before: int, sigma: nat)
    requires
        0 <= before <= rules.len(),
        widths.len() == before,
        forall|k: int| 0 <= k < before ==> widths[k] == (#[trigger] rules[k]).width(),
        forall|k: int| before <= k < rules.len() ==> (#[trigger] rules[k]).width() == ceil_log2(sigma),
    ensures
        rule_widths(rules) == widths + Seq::new(
            (rules.len() - before) as nat,
            |k: int| ceil_log2(sigma),
        ),
{
    assert(rule_widths(rules) =~= widths + Seq::new(
        (rules.len() - before) as nat,
        |k: int| ceil_log2(sigma),
    ));
}

/// The width that counts up to the length of a text is between one bit
/// and a machine word and can hold every position and one value more.
proof fn lemma_input_bits(n: usize)
    requires
        1 <= n < usize::MAX,
    ensures
        1 <= ceil_log2((n + 1) as nat) <= usize::BITS,
        n + 1 <= pow2(ceil_log2((n + 1) as nat)),
{
    lemma_ceil_log2_is_least((n + 1) as nat);
    lemma_ceil_log2_word((n + 1) as usize);
    assert(ceil_log2((n + 1) as nat) == 1 + ceil_log2(((n + 2) / 2) as nat));
}

/// A text wide enough for the grown alphabet has room for the symbol of
/// every rule that a rank names.
proof fn lemma_symbols_fit(
    eq: Seq<bool>,
    rules: Seq<Seq<usize>>,
    before: int,
    additional: int,
    width: nat,
)
    requires
        0 <= before,
        rules.len() == before + additional,
        256 + before + additional <= usize::MAX,
        ceil_log2((256 + before + additional) as nat) <= width,
    ensures
        fits(0, width),
        forall|j: int|
            0 <= rule_index(eq, j) < additional ==> #[trigger] replaceable(
                eq,
                rules,
                before,
                width,
                j,
            ),
{
    lemma_ceil_log2_is_least((256 + before + additional) as nat);
    lemma_pow2_monotone(ceil_log2((256 + before + additional) as nat), width);
    vstd::arithmetic::power2::lemma_pow2_pos(width);
}

/// Rules that are no longer than a text that can be stored are short
/// enough to step over.
proof fn lemma_rule_lengths(
    rules: Seq<IntVector>,
    old_rules: Seq<Seq<usize>>,
    fresh: Seq<Seq<usize>>,
    n: int,
)
    requires
        rules_view(rules) == old_rules + fresh,
        n <= isize::MAX,
        forall|k: int| 0 <= k < old_rules.len() ==> (#[trigger] old_rules[k]).len() <= isize::MAX,
        forall|x: int| 0 <= x < fresh.len() ==> (#[trigger] fresh[x]).len() <= n,
    ensures
        forall|k: int| 0 <= k < rules.len() ==> (#[trigger] rules[k])@.len() <= isize::MAX,
{
    let rv = rules_view(rules);
    assert(rv.len() == rules.len());
    assert((old_rules + fresh).len() == old_rules.len() + fresh.len());
    assert forall|k: int| 0 <= k < rules.len() implies (#[trigger] rules[k])@.len() <= isize::MAX by {
        assert(rv[k] == rules[k]@);
        if k >= old_rules.len() {
            assert(rv[k] == fresh[k - old_rules.len()]);
        } else {
            assert(rv[k] == old_rules[k]);
        }
    }
}

} // verus!
