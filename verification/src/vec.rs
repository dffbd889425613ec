//! A growable collection of bits.
//!
//! The collection owns the elements that hold its bits, and describes where its bits lie in
//! them by a region pointer: the bits begin at the pointer's head in the first element and are
//! as many as the pointer's bit count. Every bit is read and written through the pointer.

use vstd::prelude::*;
use vstd::slice::{slice_subrange, slice_to_vec};
use crate::access::{bit_of, bits_of, lemma_write_then_read, lemma_bit_in_span};
use crate::index::BitIdx;
use crate::order::BitOrder;
use crate::ptr::{BitPtr, Region, REGION_MAX_BITS};
use crate::store::{BitStore, valid_width, elem_bytes};

verus! {

/// A growable collection of bits, counted in the order `O` within elements of type `T`.
pub struct BitVec<O: BitOrder, T: BitStore> {
    data: Vec<T>,
    bitptr: BitPtr<O, T>,
}

impl<O: BitOrder, T: BitStore> View for BitVec<O, T> {
    type V = Seq<bool>;

    /// The bits of the collection, in order.
    closed spec fn view(&self) -> Seq<bool> {
        bits_of::<O, T>(self.data@, self.bitptr@)
    }
}

/// The region of a collection is valid wherever it begins in its first element.
proof fn lemma_own_region(head: nat, bits: nat, width: nat)
    by (nonlinear_arith)
    requires
        valid_width(width),
        head < width,
        bits <= usize::MAX / 8,
        usize::MAX >= 0xffff_ffff,
    ensures
        (Region { addr: elem_bytes(width), head, bits }).valid(width),
{
}

/// How the number of elements that a run of bits touches grows with one more bit.
proof fn lemma_one_more_bit(head: nat, bits: nat, width: nat)
    by (nonlinear_arith)
    requires
        valid_width(width),
    ensures
        (head + bits + 1 + width - 1) as nat / width == (head + bits + width - 1) as nat / width
            + (if (head + bits) % width == 0 {
            1nat
        } else {
            0nat
        }),
        (head + bits) / width < (head + bits + 1 + width - 1) as nat / width,
        (head + bits) % width == (head + bits) as int % (width as int),
{
}

/// A run of bits that begins at the head of an element touches no more elements than one
/// that holds as many bits and begins later.
proof fn lemma_fewer_elements(head: nat, bits: nat, width: nat)
    by (nonlinear_arith)
    requires
        valid_width(width),
    ensures
        (bits + width - 1) as nat / width <= (head + bits + width - 1) as nat / width,
{
}

impl<O: BitOrder, T: BitStore> BitVec<O, T> {
    /// The collection holds exactly the elements that its region touches, and its region
    /// begins at the least address that is aligned and not null.
    pub closed spec fn wf(self) -> bool {
        &&& self.bitptr.wf()
        &&& self.bitptr@.addr == elem_bytes(T::width())
        &&& self.data@.len() == self.bitptr@.elements(T::width())
    }

    /// The index in the first element at which the bits of the collection begin.
    pub closed spec fn head(self) -> nat {
        self.bitptr@.head
    }

    /// The elements that hold the bits of the collection.
    pub closed spec fn storage(self) -> Seq<T> {
        self.data@
    }

    /// What the view of a collection is, over its head and its elements.
    pub proof fn lemma_view(self)
        requires
            self.wf(),
        ensures
            self@ == bits_of::<O, T>(
                self.storage(),
                Region { addr: elem_bytes(T::width()), head: self.head(), bits: self@.len() },
            ),
            self.head() < T::width(),
            self@.len() <= usize::MAX / 8,
            self.storage().len() == (self.head() + self@.len() + T::width() - 1) as nat
                / T::width(),
    {
    }

    /// The collection of no bits.
    pub fn new() -> (r: Self)
        ensures
            r.wf(),
            r@ == Seq::<bool>::empty(),
            r.head() == 0,
    {
        let bitptr = BitPtr::empty();
        proof {
            T::width_is_valid();
            use_type_invariant(&bitptr);
            crate::store::lemma_width_arith((T::width() - 1) as nat, T::width());
        }
        let r = BitVec { data: Vec::new(), bitptr };
        assert(r@ =~= Seq::<bool>::empty());
        r
    }

    /// The number of bits in the collection.
    pub fn len(&self) -> (r: usize)
        requires
            self.wf(),
        ensures
            r == self@.len(),
    {
        self.bitptr.len()
    }

    /// Whether the collection holds no bit.
    pub fn is_empty(&self) -> (r: bool)
        requires
            self.wf(),
        ensures
            r == (self@.len() == 0),
    {
        self.bitptr.len() == 0
    }

    /// The number of elements that hold the bits of the collection.
    pub fn elements(&self) -> (r: usize)
        requires
            self.wf(),
        ensures
            r == self.storage().len(),
    {
        self.bitptr.elements()
    }

    /// The elements that hold the bits of the collection.
    pub fn as_slice(&self) -> (r: &[T])
        requires
            self.wf(),
        ensures
            r@ == self.storage(),
    {
        self.data.as_slice()
    }

    /// The pointer to the region of the collection within its elements.
    pub fn bitptr(&self) -> (r: BitPtr<O, T>)
        requires
            self.wf(),
        ensures
            r@ == (Region {
                addr: elem_bytes(T::width()),
                head: self.head(),
                bits: self@.len(),
            }),
    {
        self.bitptr
    }

    /// The bit at `index`, if the collection holds that many bits.
    pub fn get(&self, index: usize) -> (r: Option<bool>)
        requires
            self.wf(),
        ensures
            r == (if index < self@.len() {
                Some(self@[index as int])
            } else {
                None
            }),
    {
        if index < self.bitptr.len() {
            Some(self.bitptr.read(self.data.as_slice(), index))
        } else {
            None
        }
    }

    /// The bits of the collection, in order.
    pub fn to_vec(&self) -> (r: Vec<bool>)
        requires
            self.wf(),
        ensures
            r@ == self@,
    {
        self.bitptr.read_all(self.data.as_slice())
    }

    /// Adds `value` after the last bit of the collection. The caller knows that the
    /// collection does not yet hold the greatest number of bits.
    pub fn push(&mut self, value: bool)
        requires
            old(self).wf(),
            old(self)@.len() < REGION_MAX_BITS,
        ensures
            final(self).wf(),
            final(self)@ == old(self)@.push(value),
            final(self).head() == old(self).head(),
    {
        let len = self.bitptr.len();
        let head = self.bitptr.head().value();
        let ghost before = self.data@;
        let ghost region = self.bitptr@;
        proof {
            T::width_is_valid();
            crate::ptr::lemma_region_max_bits();
            lemma_one_more_bit(region.head, region.bits, T::width());
            lemma_own_region(region.head, region.bits + 1, T::width());
        }
        if (head as usize + len) % (T::bits() as usize) == 0 {
            self.data.push(T::zero());
        }
        self.bitptr.set_len(len + 1);
        let ghost grown = self.data@;
        self.bitptr.write(self.data.as_mut_slice(), len, value);
        proof {
            let after = self.data@;
            let at = region.head + region.bits;
            assert forall|i: int| 0 <= i < region.bits + 1 implies bits_of::<O, T>(
                after,
                self.bitptr@,
            )[i] == old(self)@.push(value)[i] by {
                lemma_bit_in_span(region.head, region.bits + 1, i as nat, T::width());
                lemma_write_then_read::<O, T>(grown, after, at, value, (region.head + i) as nat);
                if i < region.bits {
                    lemma_bit_in_span(region.head, region.bits, i as nat, T::width());
                }
            }
            assert(self@ =~= old(self)@.push(value));
        }
    }

    /// Adds the bits of `bits` after the last bit of the collection, in order. The caller knows
    /// that the collection then holds no more than the greatest number of bits.
    pub fn extend_from_slice(&mut self, bits: &[bool])
        requires
            old(self).wf(),
            old(self)@.len() + bits@.len() <= REGION_MAX_BITS,
        ensures
            final(self).wf(),
            final(self)@ == old(self)@ + bits@,
            final(self).head() == old(self).head(),
    {
        let mut i: usize = 0;
        while i < bits.len()
            invariant
                i <= bits@.len(),
                self.wf(),
                self.head() == old(self).head(),
                old(self)@.len() + bits@.len() <= REGION_MAX_BITS,
                self@ == old(self)@ + bits@.take(i as int),
            decreases bits@.len() - i,
        {
            self.push(bits[i]);
            proof {
                assert(bits@.take(i + 1) =~= bits@.take(i as int).push(bits@[i as int]));
                assert(self@ =~= old(self)@ + bits@.take(i + 1));
            }
            i += 1;
        }
        proof {
            assert(bits@.take(bits@.len() as int) =~= bits@);
        }
    }

    /// The collection of `len` bits that are all `bit`. The caller asks for no more than the
    /// greatest number of bits.
    pub fn repeat(bit: bool, len: usize) -> (r: Self)
        requires
            len <= REGION_MAX_BITS,
        ensures
            r.wf(),
            r@ == Seq::new(len as nat, |i: int| bit),
            r.head() == 0,
    {
        let mut out = Self::new();
        let mut i: usize = 0;
        while i < len
            invariant
                i <= len,
                len <= REGION_MAX_BITS,
                out.wf(),
                out.head() == 0,
                out@ == Seq::new(i as nat, |k: int| bit),
            decreases len - i,
        {
            out.push(bit);
            i += 1;
            proof {
                assert(out@ =~= Seq::new(i as nat, |k: int| bit));
            }
        }
        out
    }

    /// The collection of the given bits, in order. The caller gives no more than the greatest
    /// number of bits.
    pub fn from_bools(bits: &[bool]) -> (r: Self)
        requires
            bits@.len() <= REGION_MAX_BITS,
        ensures
            r.wf(),
            r@ == bits@,
            r.head() == 0,
    {
        let mut out = Self::new();
        out.extend_from_slice(bits);
        proof {
            assert(Seq::<bool>::empty() + bits@ =~= bits@);
        }
        out
    }
}

impl<O: BitOrder, T: BitStore> BitVec<O, T> {
    /// The collection of the bits of a region, whose elements are handed in as `mem`. The
    /// collection holds copies of the elements that the region touches, and its bits begin in
    /// the first of them where the bits of the region begin.
    pub fn from_region(mem: &[T], region: &BitPtr<O, T>) -> (r: Self)
        requires
            region@.elements(T::width()) <= mem@.len(),
        ensures
            r.wf(),
            r@ == bits_of::<O, T>(mem@, region@),
            r.head() == region@.head,
            r.storage() == mem@.take(region@.elements(T::width()) as int),
    {
        let elts = region.elements();
        let data = slice_to_vec(slice_subrange(mem, 0, elts));
        proof {
            use_type_invariant(region);
            T::width_is_valid();
            crate::store::lemma_bytes_arith(1, T::width());
            lemma_own_region(region@.head, region@.bits, T::width());
        }
        let bitptr = BitPtr::new_unchecked((T::bits() / 8) as usize, region.head(), region.len());
        let r = BitVec { data, bitptr };
        proof {
            use_type_invariant(&bitptr);
            assert(mem@.subrange(0, elts as int) =~= mem@.take(elts as int));
            assert forall|i: int| 0 <= i < region@.bits implies #[trigger] r@[i] == bits_of::<
                O,
                T,
            >(mem@, region@)[i] by {
                lemma_bit_in_span(region@.head, region@.bits, i as nat, T::width());
            }
            assert(r@ =~= bits_of::<O, T>(mem@, region@));
        }
        r
    }

    /// Moves the bits of the collection down so that they begin at the first bit of the first
    /// element. The bits of the collection stay what they were.
    pub fn force_align(&mut self)
        requires
            old(self).wf(),
        ensures
            final(self).wf(),
            final(self)@ == old(self)@,
            final(self).head() == 0,
    {
        let head = self.bitptr.head().value() as usize;
        if head == 0 {
            return ;
        }
        let len = self.bitptr.len();
        let ghost region = self.bitptr@;
        let ghost width = T::width();
        proof {
            use_type_invariant(&self.bitptr);
            T::width_is_valid();
            crate::store::lemma_bytes_arith(1, width);
            lemma_own_region(0, region.bits, width);
            lemma_fewer_elements(region.head, region.bits, width);
        }
        let src = self.bitptr;
        let dst = BitPtr::<O, T>::new_unchecked((T::bits() / 8) as usize, BitIdx::zero(), len);
        let mut i: usize = 0;
        while i < len
            invariant
                i <= len,
                len as nat == region.bits,
                head as nat == region.head,
                head > 0,
                width == T::width(),
                valid_width(width),
                src@ == region,
                dst@ == (Region { addr: elem_bytes(width), head: 0, bits: region.bits }),
                self.data@.len() == region.elements(width),
                dst@.elements(width) <= self.data@.len(),
                region.head < width,
                forall|j: int|
                    0 <= j < i ==> bit_of::<O, T>(self.data@, j as nat) == old(self)@[j],
                forall|j: int|
                    i <= j < len ==> bit_of::<O, T>(self.data@, (region.head + j) as nat) == old(
                        self,
                    )@[j],
            decreases len - i,
        {
            let bit = src.read(self.data.as_slice(), i);
            let ghost before = self.data@;
            dst.write(self.data.as_mut_slice(), i, bit);
            proof {
                let after = self.data@;
                lemma_bit_in_span(0, region.bits, i as nat, width);
                assert forall|j: int| 0 <= j < i + 1 implies bit_of::<O, T>(after, j as nat)
                    == old(self)@[j] by {
                    lemma_bit_in_span(0, region.bits, j as nat, width);
                    lemma_write_then_read::<O, T>(before, after, i as nat, bit, j as nat);
                }
                assert forall|j: int| i + 1 <= j < len implies bit_of::<O, T>(
                    after,
                    (region.head + j) as nat,
                ) == old(self)@[j] by {
                    lemma_bit_in_span(region.head, region.bits, j as nat, width);
                    lemma_write_then_read::<O, T>(
                        before,
                        after,
                        i as nat,
                        bit,
                        (region.head + j) as nat,
                    );
                }
            }
            i += 1;
        }
        let elts = dst.elements();
        self.data.truncate(elts);
        self.bitptr = dst;
        proof {
            use_type_invariant(&dst);
            assert forall|j: int| 0 <= j < region.bits implies #[trigger] self@[j] == old(
                self,
            )@[j] by {
                lemma_bit_in_span(0, region.bits, j as nat, width);
            }
            assert(self@ =~= old(self)@);
        }
    }
}

} // verus!
