//! Bit-packed integer vectors, bit vectors and rank support.
//!
//! The storage itself is the `succinct` crate's. Its types are held here in
//! opaque structs; what they contain is named by a sequence each, and the
//! few operations the grammar builder needs are bound to those sequences by
//! contracts that are taken from the crate's source and not proved.

use succinct::{BitRankSupport, BitVec, BitVecMut, IntVec, IntVecMut};
use vstd::arithmetic::power2::*;
use vstd::prelude::*;

verus! {

/// A vector of unsigned integers that all occupy the same number of bits
/// (`succinct::IntVector<usize>`).
#[verifier::external_body]
pub struct IntVector {
    inner: succinct::IntVector<usize>,
}

/// A vector of bits (`succinct::BitVector<u64>`).
#[verifier::external_body]
pub struct BitVector {
    inner: succinct::BitVector<u64>,
}

/// A bit vector together with Vigna's rank9 index over it
/// (`succinct::Rank9<succinct::BitVector<u64>>`).
#[verifier::external_body]
pub struct Rank9 {
    inner: succinct::Rank9<succinct::BitVector<u64>>,
}

/// The elements an integer vector holds, in order.
pub uninterp spec fn int_vector_elems(v: &IntVector) -> Seq<usize>;

/// The element width, in bits, an integer vector was created with.
pub uninterp spec fn int_vector_width(v: &IntVector) -> nat;

/// The bits a bit vector holds, in order.
pub uninterp spec fn bit_vector_bits(v: &BitVector) -> Seq<bool>;

/// The bits of the bit vector a rank index was built over.
pub uninterp spec fn rank9_bits(r: &Rank9) -> Seq<bool>;

/// Whether a vector of `len` elements of `width` bits each can be stored:
/// the width is between one bit and a machine word, and the total number
/// of bits stays within what one allocation can hold.
pub open spec fn storable(width: int, len: int) -> bool {
    &&& 1 <= width <= usize::BITS
    &&& 0 <= len
    &&& len * width <= isize::MAX
}

/// Whether `value` can be written with `width` bits.
pub open spec fn fits(value: usize, width: nat) -> bool {
    (value as nat) < pow2(width)
}

/// Fewer or narrower elements can be stored wherever more or wider ones
/// can.
pub proof fn lemma_storable_smaller(width: int, len: int, width2: int, len2: int)
    requires
        storable(width2, len2),
        1 <= width <= width2,
        0 <= len <= len2,
    ensures
        storable(width, len),
{
    assert(len * width <= len2 * width2) by (nonlinear_arith)
        requires
            0 <= len <= len2,
            0 <= width <= width2,
    ;
}

/// A storable length is no larger than its bit count, which fits an
/// `isize`.
pub proof fn lemma_storable_len(width: int, len: int)
    requires
        storable(width, len),
    ensures
        len <= isize::MAX,
{
    assert(len <= len * width) by (nonlinear_arith)
        requires
            0 <= len,
            1 <= width,
    ;
}

/// Number of set bits among the first `k` bits of `bits`.
pub open spec fn ones_before(bits: Seq<bool>, k: int) -> nat
    decreases k,
{
    if k <= 0 {
        0
    } else {
        ones_before(bits, k - 1) + if bits[k - 1] {
            1nat
        } else {
            0nat
        }
    }
}

/// Number of set bits at positions `0..=pos`.
pub open spec fn rank1_of(bits: Seq<bool>, pos: int) -> nat {
    ones_before(bits, pos + 1)
}

/// Number of clear bits at positions `0..=pos`.
pub open spec fn rank0_of(bits: Seq<bool>, pos: int) -> int {
    pos + 1 - rank1_of(bits, pos)
}

impl View for IntVector {
    type V = Seq<usize>;

    open spec fn view(&self) -> Seq<usize> {
        int_vector_elems(self)
    }
}

impl View for BitVector {
    type V = Seq<bool>;

    open spec fn view(&self) -> Seq<bool> {
        bit_vector_bits(self)
    }
}

impl View for Rank9 {
    type V = Seq<bool>;

    open spec fn view(&self) -> Seq<bool> {
        rank9_bits(self)
    }
}

impl IntVector {
    /// The element width in bits.
    pub open spec fn width(&self) -> nat {
        int_vector_width(self)
    }

    /// `succinct::IntVector::with_capacity`: an empty vector of the given
    /// element width. The crate rejects a width of zero or above a machine
    /// word, and a capacity whose bit count overflows.
    #[verifier::external_body]
    pub(crate) fn with_capacity(width: usize, capacity: usize) -> (v: IntVector)
        requires
            storable(width as int, capacity as int),
        ensures
            int_vector_elems(&v) == Seq::<usize>::empty(),
            int_vector_width(&v) == width,
    {
        IntVector { inner: succinct::IntVector::with_capacity(width, capacity as u64) }
    }

    /// `succinct::IntVector::with_fill`: `len` copies of `value`, which the
    /// crate stores unchanged when it fits the width.
    #[verifier::external_body]
    pub(crate) fn with_fill(width: usize, len: usize, value: usize) -> (v: IntVector)
        requires
            storable(width as int, len as int),
            fits(value, width as nat),
        ensures
            int_vector_elems(&v) == Seq::new(len as nat, |i: int| value),
            int_vector_width(&v) == width,
    {
        IntVector { inner: succinct::IntVector::with_fill(width, len as u64, value) }
    }

    /// `succinct::IntVec::len`: the number of elements. A vector made
    /// through this module is storable, so the count fits a `usize`.
    #[verifier::external_body]
    pub(crate) fn len(&self) -> (n: usize)
        ensures
            n == int_vector_elems(self).len(),
    {
        self.inner.len() as usize
    }

    /// `succinct::IntVec::element_bits`: the width the vector was created
    /// with, which the crate checked to be between one bit and a word.
    #[verifier::external_body]
    pub(crate) fn element_bits(&self) -> (w: usize)
        ensures
            w == int_vector_width(self),
            1 <= w <= usize::BITS,
    {
        self.inner.element_bits()
    }

    /// `succinct::IntVec::get`: the element at `index`, which is read from
    /// `width` bits and so fits them. The crate panics past the end.
    #[verifier::external_body]
    pub(crate) fn get(&self, index: usize) -> (value: usize)
        requires
            index < int_vector_elems(self).len(),
        ensures
            value == int_vector_elems(self)[index as int],
            fits(value, int_vector_width(self)),
    {
        self.inner.get(index as u64)
    }

    /// `succinct::IntVecMut::set`: overwrites the element at `index`. The
    /// crate panics past the end and on a value too large for the width.
    #[verifier::external_body]
    pub(crate) fn set(&mut self, index: usize, value: usize)
        requires
            index < int_vector_elems(old(self)).len(),
            fits(value, int_vector_width(old(self))),
        ensures
            int_vector_elems(final(self)) == int_vector_elems(old(self)).update(
                index as int,
                value,
            ),
            int_vector_width(final(self)) == int_vector_width(old(self)),
    {
        self.inner.set(index as u64, value)
    }

    /// `succinct::IntVector::push`: appends one element, growing the
    /// storage as needed. The crate panics on a value too large for the
    /// width.
    #[verifier::external_body]
    pub(crate) fn push(&mut self, value: usize)
        requires
            fits(value, int_vector_width(old(self))),
            storable(
                int_vector_width(old(self)) as int,
                int_vector_elems(old(self)).len() as int + 1,
            ),
        ensures
            int_vector_elems(final(self)) == int_vector_elems(old(self)).push(value),
            int_vector_width(final(self)) == int_vector_width(old(self)),
    {
        self.inner.push(value)
    }

    /// `succinct::IntVector::truncate`: keeps the first `len` elements, and
    /// everything when there are no more than `len`.
    #[verifier::external_body]
    pub(crate) fn truncate(&mut self, len: usize)
        ensures
            int_vector_elems(final(self)) == if len < int_vector_elems(old(self)).len() {
                int_vector_elems(old(self)).take(len as int)
            } else {
                int_vector_elems(old(self))
            },
            int_vector_width(final(self)) == int_vector_width(old(self)),
    {
        self.inner.truncate(len as u64)
    }
}

impl BitVector {
    /// `succinct::BitVector::with_fill`: `len` bits, all equal to `value`.
    /// The crate panics when the block count overflows.
    #[verifier::external_body]
    pub(crate) fn with_fill(len: usize, value: bool) -> (v: BitVector)
        requires
            storable(1, len as int),
        ensures
            bit_vector_bits(&v) == Seq::new(len as nat, |i: int| value),
    {
        BitVector { inner: succinct::BitVector::with_fill(len as u64, value) }
    }

    /// `succinct::BitVec::get_bit`: the bit at `index`. The crate panics
    /// past the end.
    #[verifier::external_body]
    pub(crate) fn get_bit(&self, index: usize) -> (bit: bool)
        requires
            index < bit_vector_bits(self).len(),
        ensures
            bit == bit_vector_bits(self)[index as int],
    {
        self.inner.get_bit(index as u64)
    }

    /// `succinct::BitVecMut::set_bit`: overwrites the bit at `index`. The
    /// crate panics past the end.
    #[verifier::external_body]
    pub(crate) fn set_bit(&mut self, index: usize, bit: bool)
        requires
            index < bit_vector_bits(old(self)).len(),
        ensures
            bit_vector_bits(final(self)) == bit_vector_bits(old(self)).update(index as int, bit),
    {
        self.inner.set_bit(index as u64, bit)
    }
}

impl Rank9 {
    /// `succinct::Rank9::new`: takes the bit vector over and indexes it;
    /// the bits stay as they are.
    #[verifier::external_body]
    pub(crate) fn new(bits: BitVector) -> (r: Rank9)
        ensures
            rank9_bits(&r) == bit_vector_bits(&bits),
    {
        Rank9 { inner: succinct::Rank9::new(bits.inner) }
    }

    /// `succinct::BitRankSupport::rank1`: the number of set bits up to and
    /// including `position`. The crate panics past the last block.
    #[verifier::external_body]
    pub(crate) fn rank1(&self, position: usize) -> (count: usize)
        requires
            position < rank9_bits(self).len(),
        ensures
            count == rank1_of(rank9_bits(self), position as int),
    {
        self.inner.rank1(position as u64) as usize
    }

    /// `succinct::BitRankSupport::rank0`: the number of clear bits up to
    /// and including `position`, computed as `position + 1 - rank1`.
    #[verifier::external_body]
    pub(crate) fn rank0(&self, position: usize) -> (count: usize)
        requires
            position < rank9_bits(self).len(),
        ensures
            count == rank0_of(rank9_bits(self), position as int),
    {
        self.inner.rank0(position as u64) as usize
    }
}

} // verus!
