use vstd::prelude::*;

use bitvec::order::Lsb0;
use bitvec::vec::BitVec;

verus! {

/// A fixed-length bit-per-cell structure over one line of the grid. In a
/// rule's constraints, bit `i` set means "cell `i` is forced to the
/// associated color under all valid completions consistent with the
/// current known cells". Backed by a bit-vector of the bitvec crate.
#[verifier::external_body]
pub struct LineMask {
    bits: BitVec<usize, Lsb0>,
}

/// The bits a mask holds, indexed from its front.
pub uninterp spec fn bit_seq(m: LineMask) -> Seq<bool>;

impl View for LineMask {
    type V = Seq<bool>;

    open spec fn view(&self) -> Seq<bool> {
        bit_seq(*self)
    }
}

impl LineMask {
    /// Relies on bitvec's `BitVec::repeat`: a bit-vector made of `len`
    /// copies of the given bit.
    #[verifier::external_body]
    pub fn repeat(bit: bool, len: usize) -> (m: LineMask)
        ensures
            bit_seq(m).len() == len,
            forall|i: int| 0 <= i < len ==> bit_seq(m)[i] == bit,
    {
        LineMask { bits: BitVec::repeat(bit, len) }
    }

    /// Relies on bitvec's `BitVec::len`: the number of bits held.
    #[verifier::external_body]
    pub fn len(&self) -> (n: usize)
        ensures
            n == bit_seq(*self).len(),
    {
        self.bits.len()
    }

    /// Relies on bitvec's `Index<usize>` for bit-slices: the bit at
    /// `index`; an out-of-range index panics and is excluded here.
    #[verifier::external_body]
    pub fn get(&self, index: usize) -> (b: bool)
        requires
            index < bit_seq(*self).len(),
        ensures
            b == bit_seq(*self)[index as int],
    {
        self.bits[index]
    }

    /// Relies on bitvec's `BitSlice::set`: writes one bit, leaving every
    /// other bit as it was; an out-of-range index panics and is excluded.
    #[verifier::external_body]
    pub fn set(&mut self, index: usize, value: bool)
        requires
            index < bit_seq(*old(self)).len(),
        ensures
            bit_seq(*final(self)) == bit_seq(*old(self)).update(index as int, value),
    {
        self.bits.set(index, value);
    }

    /// Whether two masks hold the same bits.
    pub fn same_bits(&self, other: &LineMask) -> (r: bool)
        ensures
            r <==> self@ =~= other@,
    {
        if self.len() != other.len() {
            return false;
        }
        let n = self.len();
        let mut i: usize = 0;
        while i < n
            invariant
                n == self@.len(),
                n == other@.len(),
                0 <= i <= n,
                forall|k: int| 0 <= k < i ==> self@[k] == other@[k],
            decreases n - i,
        {
            if self.get(i) != other.get(i) {
                return false;
            }
            i += 1;
        }
        true
    }
}

} // verus!
