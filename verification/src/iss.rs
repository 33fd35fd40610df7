//! L/S classification and the induced sort of the LMS positions.

use crate::buckets::{
    bucket_end, bucket_ends, bucket_start, bucket_starts, count, is_sparse, lemma_bucket_layout,
    lemma_count_positive, lemma_count_range, lemma_ones_grow, lemma_ones_range,
    lemma_rank_of_set_bit, lemma_sparse_update, occurrences, present, Class,
};
use crate::induce::{
    after_l_scan, after_placing, after_s_scan, collect_lms, induced_l, induced_s, is_lms_order,
    lemma_collect, lemma_lms_sorted_from, lms_sorted, lms_sorted_from, placed, INVALID,
};
use crate::left_scan::lemma_l_scan_safe;
use crate::packed::{
    lemma_storable_len, lemma_storable_smaller, ones_before, rank1_of, storable, BitVector,
    IntVector, Rank9,
};
use crate::placing::lemma_place_safe;
use crate::right_scan::{lemma_s_scan_safe, lemma_slots_in_range};
use crate::sorted::{is_sorted_by_substring, lemma_sorted_by_substring};
use crate::text::{
    is_l, is_lms, is_lms_list, is_ls_map, is_text, lemma_lms_below, lemma_lms_list_len,
    lemma_ls_types_is_ls_map, lemma_text_symbols, lms_below, lms_in, ls_types,
};
use crate::width::{
    ceil_log2, ceil_log2_of, lemma_ceil_log2_is_least, lemma_index_width, lemma_pow2_monotone,
    low_mask,
};
use vstd::arithmetic::power2::pow2;
use vstd::prelude::*;

verus! {

/// The L/S map of a text, one bit per position: a set bit marks type L.
pub struct LS(BitVector, usize);

impl View for LS {
    type V = Seq<bool>;

    closed spec fn view(&self) -> Seq<bool> {
        self.0@
    }
}

impl LS {
    /// The recorded length is the number of bits held.
    pub closed spec fn wf(&self) -> bool {
        self.0@.len() == self.1
    }

    /// Classifies every position of `s` in one pass from the right.
    pub fn from(s: &IntVector) -> (ls: LS)
        requires
            s@.len() >= 1,
            storable(1, s@.len() as int),
        ensures
            ls.wf(),
            ls@ == ls_types(s@),
            is_ls_map(s@, ls@),
    {
        let n = s.len();
        let mut bits = BitVector::with_fill(n, false);
        // The sentinel is of type S.
        bits.set_bit(n - 1, false);
        let mut i = n - 1;
        while i > 0
            invariant
                0 <= i < n,
                n == s@.len(),
                bits@.len() == n,
                forall|j: int| i <= j < n ==> bits@[j] == is_l(s@, j),
            decreases i,
        {
            i = i - 1;
            let a = s.get(i);
            let b = s.get(i + 1);
            if a > b {
                bits.set_bit(i, true);
            } else if a < b {
                bits.set_bit(i, false);
            } else {
                let previous_value = bits.get_bit(i + 1);
                bits.set_bit(i, previous_value);
            }
        }
        proof {
            assert(bits@ =~= ls_types(s@));
            lemma_ls_types_is_ls_map(s@);
        }
        LS(bits, n)
    }

    /// Classifies every position of the plain sequence `s`, as `from`
    /// does for a packed one.
    pub fn from_slice(s: &[usize]) -> (ls: LS)
        requires
            s@.len() >= 1,
            storable(1, s@.len() as int),
        ensures
            ls.wf(),
            ls@ == ls_types(s@),
            is_ls_map(s@, ls@),
    {
        let n = s.len();
        let mut bits = BitVector::with_fill(n, false);
        // The sentinel is of type S.
        bits.set_bit(n - 1, false);
        let mut i = n - 1;
        while i > 0
            invariant
                0 <= i < n,
                n == s@.len(),
                bits@.len() == n,
                forall|j: int| i <= j < n ==> bits@[j] == is_l(s@, j),
            decreases i,
        {
            i = i - 1;
            let a = s[i];
            let b = s[i + 1];
            if a > b {
                bits.set_bit(i, true);
            } else if a < b {
                bits.set_bit(i, false);
            } else {
                let previous_value = bits.get_bit(i + 1);
                bits.set_bit(i, previous_value);
            }
        }
        proof {
            assert(bits@ =~= ls_types(s@));
            lemma_ls_types_is_ls_map(s@);
        }
        LS(bits, n)
    }

    /// The underlying bit vector.
    pub fn inner(&self) -> (bits: &BitVector)
        ensures
            bits@ == self@,
    {
        &self.0
    }

    /// Whether position `i` is of type L.
    pub fn is_l(&self, i: usize) -> (b: bool)
        requires
            i < self@.len(),
        ensures
            b == self@[i as int],
    {
        self.0.get_bit(i)
    }

    /// Whether position `i` is of type S.
    pub fn is_s(&self, i: usize) -> (b: bool)
        requires
            i < self@.len(),
        ensures
            b == !self@[i as int],
    {
        !self.0.get_bit(i)
    }

    /// Whether position `i` is LMS. Position 0 never is.
    pub fn is_lms(&self, i: usize) -> (b: bool)
        requires
            i < self@.len(),
        ensures
            b == lms_in(self@, i as int),
    {
        if i == 0 {
            return false;
        }
        self.is_l(i - 1) && self.is_s(i)
    }

    /// The first LMS position after `i`, if there is one.
    pub fn next_lms_index(&self, i: usize) -> (next: Option<usize>)
        requires
            self.wf(),
        ensures
            match next {
                Some(k) => i < k && lms_in(self@, k as int) && forall|j: int|
                    i < j < k ==> !lms_in(self@, j),
                None => forall|j: int| i < j ==> !lms_in(self@, j),
            },
    {
        let n = self.len();
        if i >= n {
            return None;
        }
        let mut k = i + 1;
        while k < n
            invariant
                i < k <= n,
                n == self@.len(),
                forall|j: int| i < j < k ==> !lms_in(self@, j),
            decreases n - k,
        {
            if self.is_lms(k) {
                return Some(k);
            }
            k = k + 1;
        }
        None
    }

    /// The number of positions classified.
    pub fn len(&self) -> (n: usize)
        requires
            self.wf(),
        ensures
            n == self@.len(),
    {
        self.1
    }

    /// Whether the map covers no position at all.
    pub fn is_empty(&self) -> (b: bool)
        requires
            self.wf(),
        ensures
            b == (self@.len() == 0),
    {
        self.1 == 0
    }
}

/// Copies `v` into a fresh vector of `width` bits per element.
pub(crate) fn copy_with_width(v: &IntVector, width: usize) -> (res: IntVector)
    requires
        v.width() <= width,
        storable(width as int, v@.len() as int),
    ensures
        res@ == v@,
        res.width() == width,
{
    let n = v.len();
    let mut res = IntVector::with_capacity(width, n);
    let mut i: usize = 0;
    while i < n
        invariant
            i <= n,
            n == v@.len(),
            v.width() <= width,
            storable(width as int, n as int),
            res.width() == width,
            res@ == v@.take(i as int),
        decreases n - i,
    {
        let x = v.get(i);
        proof {
            lemma_pow2_monotone(v.width(), width as nat);
            lemma_storable_smaller(width as int, i as int + 1, width as int, n as int);
        }
        res.push(x);
        proof {
            assert(v@.take(i as int).push(x) =~= v@.take(i as int + 1));
        }
        i = i + 1;
    }
    proof {
        assert(v@.take(n as int) =~= v@);
    }
    res
}

/// The width of the work array's slots: one bit more than the largest
/// position needs, and no less than a machine word.
fn work_width(len: usize) -> (width: usize)
    requires
        1 <= len <= isize::MAX,
    ensures
        width == usize::BITS,
{
    proof {
        lemma_index_width(len);
    }
    let needed = ceil_log2_of(len - 1) + 1;
    let word = usize::BITS as usize;
    if needed > word {
        needed
    } else {
        word
    }
}

/// Sorts the LMS positions of the text `vec` by induced sorting and
/// returns them in the order reached. `ls` is the text's L/S map and
/// `max_symbol` bounds its symbols.
pub fn iss(vec: &IntVector, ls: &LS, max_symbol: usize) -> (res: IntVector)
    requires
        is_text(vec@, max_symbol as int),
        ls.wf(),
        ls@ == ls_types(vec@),
        storable(usize::BITS as int, vec@.len() as int + 1),
        storable(usize::BITS as int, max_symbol as int),
    ensures
        res@ == lms_sorted(vec@, max_symbol as int),
        is_lms_order(vec@, res@),
        is_sorted_by_substring(vec@, res@),
        res.width() == usize::BITS,
{
    let n = ls.len();
    let mut lms_pos_unsorted: Vec<usize> = Vec::new();
    let mut i: usize = 0;
    while i < n
        invariant
            i <= n,
            n == ls@.len(),
            lms_pos_unsorted@ == lms_below(ls@, i as int),
        decreases n - i,
    {
        if ls.is_lms(i) {
            lms_pos_unsorted.push(i);
        }
        i = i + 1;
    }
    proof {
        lemma_lms_below(ls@, n as int);
        lemma_sorted_by_substring(vec@, max_symbol as int);
    }
    lms_sort(vec, ls, max_symbol, &lms_pos_unsorted)
}

/// The induced sort proper: places the LMS positions `lms_pos` at the
/// tails of their buckets, induces the positions of type L from left to
/// right and those of type S from right to left, and collects the LMS
/// positions from the work array.
fn lms_sort(s: &IntVector, ls: &LS, symbol_cnt: usize, lms_pos: &Vec<usize>) -> (res: IntVector)
    requires
        is_text(s@, symbol_cnt as int),
        ls.wf(),
        ls@ == ls_types(s@),
        is_lms_list(ls@, lms_pos@),
        storable(usize::BITS as int, s@.len() as int + 1),
        storable(usize::BITS as int, symbol_cnt as int),
    ensures
        res@ == lms_sorted_from(s@, symbol_cnt as int, lms_pos@),
        is_lms_order(s@, res@),
        res.width() == usize::BITS,
{
    let n = ls.len();
    let ghost sigma = symbol_cnt as int;
    let ghost lms = lms_pos@;
    proof {
        lemma_storable_len(usize::BITS as int, n as int + 1);
        lemma_storable_smaller(usize::BITS as int, n as int, usize::BITS as int, n as int + 1);
        lemma_index_width(n);
        lemma_text_symbols(s@, sigma);
    }
    let size_bits = work_width(n);
    let invalid = low_mask(size_bits);
    let mut bucket_store = IntVector::with_fill(size_bits, n, invalid);
    let (existing, mut bucket_start_of, mut bucket_end_of) = bucket_info(s, symbol_cnt);
    let bits = bucket_start_of.element_bits();
    proof {
        lemma_ceil_log2_is_least((n + 1) as nat);
    }
    // Step 0: every LMS position goes to the end of its bucket.
    {
        proof {
            lemma_ones_range(existing@, sigma);
            lemma_storable_smaller(
                bits as int,
                bucket_end_of@.len() as int,
                usize::BITS as int,
                symbol_cnt as int,
            );
        }
        let mut tails = copy_with_width(&bucket_end_of, bits);
        let mut k = lms_pos.len();
        proof {
            assert(bucket_store@ =~= placed(s@, sigma, lms, k as int).slots);
        }
        while k > 0
            invariant
                k <= lms_pos@.len(),
                lms == lms_pos@,
                sigma == symbol_cnt,
                n == s@.len(),
                is_text(s@, sigma),
                is_lms_list(ls_types(s@), lms),
                existing@ == present(s@, sigma),
                bucket_store.width() == usize::BITS,
                tails.width() == bits,
                n + 1 <= pow2(bits as nat),
                n < pow2(usize::BITS as nat) - 1,
                bucket_store@ == placed(s@, sigma, lms, k as int).slots,
                is_sparse(existing@, placed(s@, sigma, lms, k as int).ptr, tails@),
            decreases k,
        {
            let ghost st = placed(s@, sigma, lms, k as int);
            proof {
                lemma_place_safe(s@, sigma, lms, k as int);
            }
            k = k - 1;
            let pos = lms_pos[k];
            let c = s.get(pos);
            proof {
                lemma_count_positive(s@, Class::Equal, c as int, n as int, pos as int);
                lemma_rank_of_set_bit(existing@, c as int);
                assert(st.ptr[c as int] == tails@[rank1_of(existing@, c as int) - 1]);
            }
            let c_pos = existing.rank1(c) - 1;
            let tail = tails.get(c_pos);
            let ghost before = tails@;
            bucket_store.set(tail - 1, pos);
            tails.set(c_pos, tail - 1);
            proof {
                lemma_sparse_update(existing@, st.ptr, before, c as int, (tail - 1) as usize);
            }
        }
    }
    let ghost st0 = after_placing(s@, sigma, lms);
    // Step a: from left to right, the predecessor of each position met, if
    // it is of type L, goes to the first free slot of its bucket.
    let mut r: usize = 0;
    while r < n
        invariant
            r <= n,
            lms == lms_pos@,
            sigma == symbol_cnt,
            n == s@.len(),
            is_text(s@, sigma),
            ls.wf(),
            ls@ == ls_types(s@),
            is_lms_list(ls_types(s@), lms),
            existing@ == present(s@, sigma),
            st0 == placed(s@, sigma, lms, 0),
            invalid == INVALID,
            bucket_store.width() == usize::BITS,
            bucket_start_of.width() == bits,
            n + 1 <= pow2(bits as nat),
            n < pow2(usize::BITS as nat) - 1,
            bucket_store@ == induced_l(s@, sigma, st0.slots, r as int).slots,
            is_sparse(existing@, induced_l(s@, sigma, st0.slots, r as int).ptr, bucket_start_of@),
        decreases n - r,
    {
        let ghost st = induced_l(s@, sigma, st0.slots, r as int);
        proof {
            lemma_l_scan_safe(s@, sigma, lms, r as int);
        }
        let v = bucket_store.get(r);
        if v != invalid && v != 0 {
            let pos = v - 1;
            if ls.is_l(pos) {
                let c = s.get(pos);
                proof {
                    lemma_count_positive(s@, Class::Equal, c as int, n as int, pos as int);
                    lemma_rank_of_set_bit(existing@, c as int);
                    assert(st.ptr[c as int] == bucket_start_of@[rank1_of(existing@, c as int) - 1]);
                }
                let c_pos = existing.rank1(c) - 1;
                let head = bucket_start_of.get(c_pos);
                let ghost before = bucket_start_of@;
                bucket_store.set(head, pos);
                bucket_start_of.set(c_pos, head + 1);
                proof {
                    lemma_sparse_update(
                        existing@,
                        st.ptr,
                        before,
                        c as int,
                        (head + 1) as usize,
                    );
                }
            }
        }
        r = r + 1;
    }
    let ghost st1 = after_l_scan(s@, sigma, lms);
    // Step b: from right to left, the predecessor of each position met, if
    // it is of type S, goes to the last free slot of its bucket.
    let mut r: usize = n;
    while r > 0
        invariant
            r <= n,
            lms == lms_pos@,
            sigma == symbol_cnt,
            n == s@.len(),
            is_text(s@, sigma),
            ls.wf(),
            ls@ == ls_types(s@),
            is_lms_list(ls_types(s@), lms),
            existing@ == present(s@, sigma),
            st1 == after_l_scan(s@, sigma, lms),
            invalid == INVALID,
            bucket_store.width() == usize::BITS,
            bucket_end_of.width() == bits,
            n + 1 <= pow2(bits as nat),
            n < pow2(usize::BITS as nat) - 1,
            bucket_store@ == induced_s(s@, sigma, st1.slots, n - r).slots,
            is_sparse(existing@, induced_s(s@, sigma, st1.slots, n - r).ptr, bucket_end_of@),
        decreases r,
    {
        let ghost st = induced_s(s@, sigma, st1.slots, n - r);
        proof {
            lemma_s_scan_safe(s@, sigma, lms, r - 1);
        }
        r = r - 1;
        let v = bucket_store.get(r);
        if v != invalid && v != 0 {
            let pos = v - 1;
            if ls.is_s(pos) {
                let c = s.get(pos);
                proof {
                    lemma_count_positive(s@, Class::Equal, c as int, n as int, pos as int);
                    lemma_rank_of_set_bit(existing@, c as int);
                    assert(st.ptr[c as int] == bucket_end_of@[rank1_of(existing@, c as int) - 1]);
                }
                let c_pos = existing.rank1(c) - 1;
                let tail = bucket_end_of.get(c_pos);
                let ghost before = bucket_end_of@;
                bucket_store.set(tail - 1, pos);
                bucket_end_of.set(c_pos, tail - 1);
                proof {
                    lemma_sparse_update(
                        existing@,
                        st.ptr,
                        before,
                        c as int,
                        (tail - 1) as usize,
                    );
                }
            }
        }
    }
    let ghost st2 = after_s_scan(s@, sigma, lms);
    proof {
        lemma_slots_in_range(s@, sigma, lms);
        lemma_lms_list_len(ls@, lms);
        lemma_storable_smaller(
            usize::BITS as int,
            lms_pos@.len() as int,
            usize::BITS as int,
            n as int + 1,
        );
    }
    let mut res = IntVector::with_capacity(size_bits, lms_pos.len());
    let mut i: usize = 0;
    while i < n
        invariant
            i <= n,
            n == s@.len(),
            ls.wf(),
            ls@ == ls_types(s@),
            invalid == INVALID,
            bucket_store@ == st2.slots,
            st2.slots.len() == n,
            forall|i: int|
                0 <= i < n ==> #[trigger] st2.slots[i] == INVALID || st2.slots[i] < n,
            res.width() == usize::BITS,
            storable(usize::BITS as int, n as int + 1),
            n < pow2(usize::BITS as nat) - 1,
            res@ == collect_lms(s@, st2.slots, i as int),
        decreases n - i,
    {
        let pos = bucket_store.get(i);
        proof {
            lemma_collect(s@, st2.slots, i as int);
            lemma_storable_smaller(
                usize::BITS as int,
                i as int + 1,
                usize::BITS as int,
                n as int + 1,
            );
            assert(st2.slots[i as int] == INVALID || st2.slots[i as int] < n);
        }
        if pos != invalid && ls.is_lms(pos) {
            res.push(pos);
        }
        i = i + 1;
    }
    proof {
        lemma_lms_sorted_from(s@, sigma, lms);
    }
    res
}

/// Counts the symbols of `s` and lays out their buckets. Only symbols that
/// occur get an entry: the returned bitmap marks them, and the start and
/// end of the bucket of a marked symbol `c` are found at index
/// `rank1(c) - 1` of the two packed arrays.
fn bucket_info(s: &IntVector, symbol_cnt: usize) -> (res: (Rank9, IntVector, IntVector))
    requires
        s@.len() >= 1,
        symbol_cnt >= 1,
        forall|i: int| 0 <= i < s@.len() ==> #[trigger] s@[i] < symbol_cnt,
        storable(usize::BITS as int, s@.len() as int + 1),
        storable(usize::BITS as int, symbol_cnt as int),
    ensures
        res.0@ == present(s@, symbol_cnt as int),
        is_sparse(res.0@, bucket_starts(s@, symbol_cnt as int), res.1@),
        is_sparse(res.0@, bucket_ends(s@, symbol_cnt as int), res.2@),
        res.1.width() == ceil_log2((s@.len() + 1) as nat),
        res.2.width() == ceil_log2((s@.len() + 1) as nat),
        1 <= res.1.width() <= usize::BITS,
{
    let n = s.len();
    proof {
        lemma_storable_len(usize::BITS as int, n as int + 1);
    }
    let bits = ceil_log2_of(n + 1);
    proof {
        lemma_ceil_log2_is_least((n + 1) as nat);
        assert(ceil_log2((n + 1) as nat) == 1 + ceil_log2(((n + 2) / 2) as nat));
        lemma_storable_smaller(
            bits as int,
            symbol_cnt as int,
            usize::BITS as int,
            symbol_cnt as int,
        );
        lemma_storable_smaller(1, symbol_cnt as int, usize::BITS as int, symbol_cnt as int);
        vstd::arithmetic::power2::lemma_pow2_pos(bits as nat);
    }
    let mut bucket_sizes = IntVector::with_fill(bits, symbol_cnt, 0);
    let mut existing = BitVector::with_fill(symbol_cnt, false);
    let mut i: usize = 0;
    while i < n
        invariant
            i <= n,
            n == s@.len(),
            n + 1 <= pow2(bits as nat),
            forall|i: int| 0 <= i < s@.len() ==> #[trigger] s@[i] < symbol_cnt,
            bucket_sizes.width() == bits,
            bucket_sizes@.len() == symbol_cnt,
            existing@.len() == symbol_cnt,
            forall|c: int|
                0 <= c < symbol_cnt ==> #[trigger] bucket_sizes@[c] == count(
                    s@,
                    Class::Equal,
                    c,
                    i as int,
                ),
            forall|c: int|
                0 <= c < symbol_cnt ==> #[trigger] existing@[c] == (count(
                    s@,
                    Class::Equal,
                    c,
                    i as int,
                ) > 0),
        decreases n - i,
    {
        let index = s.get(i);
        let size = bucket_sizes.get(index);
        proof {
            lemma_count_range(s@, Class::Equal, index as int, i as int);
            assert forall|c: int| 0 <= c < symbol_cnt implies count(s@, Class::Equal, c, i as int)
                >= 0 by {
                lemma_count_range(s@, Class::Equal, c, i as int);
            }
        }
        bucket_sizes.set(index, size + 1);
        existing.set_bit(index, true);
        i = i + 1;
    }
    proof {
        assert(existing@ =~= present(s@, symbol_cnt as int));
    }
    let existing = Rank9::new(existing);
    let existing_count = existing.rank1(symbol_cnt - 1);
    proof {
        lemma_ones_range(existing@, symbol_cnt as int);
        lemma_storable_smaller(
            bits as int,
            existing_count as int,
            usize::BITS as int,
            symbol_cnt as int,
        );
    }
    let mut bucket_start_of = IntVector::with_capacity(bits, existing_count);
    let mut bucket_end_of = IntVector::with_capacity(bits, existing_count);
    let mut c: usize = 0;
    let mut prefix: usize = 0;
    proof {
        lemma_count_range(s@, Class::Below, 0, n as int);
        lemma_below_zero(s@, n as int);
    }
    while c < symbol_cnt
        invariant
            c <= symbol_cnt,
            n == s@.len(),
            n + 1 <= pow2(bits as nat),
            1 <= bits <= usize::BITS,
            storable(usize::BITS as int, symbol_cnt as int),
            existing@ == present(s@, symbol_cnt as int),
            bucket_sizes@.len() == symbol_cnt,
            forall|c: int|
                0 <= c < symbol_cnt ==> #[trigger] bucket_sizes@[c] == occurrences(s@, c),
            prefix == bucket_start(s@, c as int),
            bucket_start_of.width() == bits,
            bucket_end_of.width() == bits,
            bucket_start_of@.len() == ones_before(existing@, c as int),
            bucket_end_of@.len() == ones_before(existing@, c as int),
            forall|d: int|
                0 <= d < c && existing@[d] ==> bucket_start(s@, d) == #[trigger] bucket_start_of@[rank1_of(
                    existing@,
                    d,
                ) - 1],
            forall|d: int|
                0 <= d < c && existing@[d] ==> bucket_end(s@, d) == #[trigger] bucket_end_of@[rank1_of(
                    existing@,
                    d,
                ) - 1],
        decreases symbol_cnt - c,
    {
        let size = bucket_sizes.get(c);
        proof {
            lemma_bucket_layout(s@, c as int);
            lemma_ones_range(existing@, c as int + 1);
            lemma_ones_grow(existing@, c as int + 1, symbol_cnt as int);
            lemma_storable_smaller(
                bits as int,
                ones_before(existing@, c as int + 1) as int,
                usize::BITS as int,
                symbol_cnt as int,
            );
            assert forall|d: int| 0 <= d < c && existing@[d] implies rank1_of(existing@, d) - 1
                < ones_before(existing@, c as int) by {
                lemma_ones_grow(existing@, d + 1, c as int);
            }
        }
        if size > 0 {
            bucket_start_of.push(prefix);
            prefix = prefix + size;
            bucket_end_of.push(prefix);
        }
        c = c + 1;
    }
    proof {
        let marks = existing@;
        let sigma = symbol_cnt as int;
        assert forall|d: int| 0 <= d < marks.len() && marks[d] implies #[trigger] bucket_starts(
            s@,
            sigma,
        )[d] == bucket_start_of@[rank1_of(marks, d) - 1] by {}
        assert forall|d: int| 0 <= d < marks.len() && marks[d] implies #[trigger] bucket_ends(
            s@,
            sigma,
        )[d] == bucket_end_of@[rank1_of(marks, d) - 1] by {}
    }
    (existing, bucket_start_of, bucket_end_of)
}

/// No symbol lies below zero.
proof fn lemma_below_zero(s: Seq<usize>, upto: int)
    ensures
        count(s, Class::Below, 0, upto) == 0,
    decreases upto,
{
    if upto > 0 {
        lemma_below_zero(s, upto - 1);
    }
}

} // verus!
