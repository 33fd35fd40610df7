//! Plain vectors in and out of the packed ones.

use crate::packed::{fits, lemma_storable_smaller, storable, BitVector, IntVector};
use vstd::prelude::*;

verus! {

impl IntVector {
    /// Packs `values` into elements of `width` bits.
    pub fn from_values(values: &Vec<usize>, width: usize) -> (v: IntVector)
        requires
            storable(width as int, values@.len() as int),
            forall|i: int| 0 <= i < values@.len() ==> fits(#[trigger] values@[i], width as nat),
        ensures
            v@ == values@,
            v.width() == width,
    {
        let n = values.len();
        let mut v = IntVector::with_capacity(width, n);
        let mut i: usize = 0;
        while i < n
            invariant
                i <= n,
                n == values@.len(),
                storable(width as int, n as int),
                forall|i: int| 0 <= i < values@.len() ==> fits(#[trigger] values@[i], width as nat),
                v.width() == width,
                v@ == values@.take(i as int),
            decreases n - i,
        {
            proof {
                lemma_storable_smaller(width as int, i as int + 1, width as int, n as int);
            }
            v.push(values[i]);
            proof {
                assert(values@.take(i as int).push(values@[i as int]) =~= values@.take(
                    i as int + 1,
                ));
            }
            i = i + 1;
        }
        proof {
            assert(values@.take(n as int) =~= values@);
        }
        v
    }

    /// The elements as a plain vector.
    pub fn to_vec(&self) -> (values: Vec<usize>)
        ensures
            values@ == self@,
    {
        let n = self.len();
        let mut values: Vec<usize> = Vec::new();
        let mut i: usize = 0;
        while i < n
            invariant
                i <= n,
                n == self@.len(),
                values@ == self@.take(i as int),
            decreases n - i,
        {
            values.push(self.get(i));
            proof {
                assert(self@.take(i as int).push(self@[i as int]) =~= self@.take(i as int + 1));
            }
            i = i + 1;
        }
        proof {
            assert(self@.take(n as int) =~= self@);
        }
        values
    }

    /// The number of bits each element occupies.
    pub fn bits_per_element(&self) -> (width: usize)
        ensures
            width == self.width(),
            1 <= width <= usize::BITS,
    {
        self.element_bits()
    }
}

impl BitVector {
    /// Packs `bits`.
    pub fn from_bits(bits: &Vec<bool>) -> (v: BitVector)
        requires
            storable(1, bits@.len() as int),
        ensures
            v@ == bits@,
    {
        let n = bits.len();
        let mut v = BitVector::with_fill(n, false);
        let mut i: usize = 0;
        while i < n
            invariant
                i <= n,
                n == bits@.len(),
                v@.len() == n,
                forall|k: int| 0 <= k < i ==> v@[k] == bits@[k],
            decreases n - i,
        {
            v.set_bit(i, bits[i]);
            i = i + 1;
        }
        proof {
            assert(v@ =~= bits@);
        }
        v
    }

    /// The bits as a plain vector. `len` is how many there are.
    pub fn to_bits(&self, len: usize) -> (bits: Vec<bool>)
        requires
            len == self@.len(),
        ensures
            bits@ == self@,
    {
        let mut bits: Vec<bool> = Vec::new();
        let mut i: usize = 0;
        while i < len
            invariant
                i <= len,
                len == self@.len(),
                bits@ == self@.take(i as int),
            decreases len - i,
        {
            bits.push(self.get_bit(i));
            proof {
                assert(self@.take(i as int).push(self@[i as int]) =~= self@.take(i as int + 1));
            }
            i = i + 1;
        }
        proof {
            assert(self@.take(len as int) =~= self@);
        }
        bits
    }
}

} // verus!
