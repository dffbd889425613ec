//! Reading and writing single bits of a region.
//!
//! The memory of a region is handed in as a slice of elements whose first element is the one
//! at the region's address. A bit is found by its distance from the region's head: the distance
//! and the head together give the element and the index in it, and the region's ordering gives
//! the place of the bit in the element's value.

use vstd::prelude::*;
use crate::order::BitOrder;
use crate::ptr::{BitPtr, Region};
use crate::store::{BitStore, valid_width, bit_at, with_bit, lemma_with_bit, lemma_width_arith};

verus! {

/// The bit that lies `at` bits after the first bit of the first element of `mem`, where the
/// bits of each element are counted in the order `O`.
pub open spec fn bit_of<O: BitOrder, T: BitStore>(mem: Seq<T>, at: nat) -> bool {
    bit_at(
        mem[(at / T::width()) as int].value(),
        O::position(at % T::width(), T::width()) as u8,
    )
}

/// The bits of a region whose first element is the first element of `mem`, in order.
pub open spec fn bits_of<O: BitOrder, T: BitStore>(mem: Seq<T>, region: Region) -> Seq<bool> {
    Seq::new(region.bits, |i: int| bit_of::<O, T>(mem, (region.head + i) as nat))
}

/// Whether `after` is what `before` becomes when the bit that lies `at` bits after its first
/// bit is set to `value`: the element that holds the bit has that bit replaced and all its
/// other bits kept, and every other element is what it was.
pub open spec fn written<O: BitOrder, T: BitStore>(
    before: Seq<T>,
    after: Seq<T>,
    at: nat,
    value: bool,
) -> bool {
    let elt = (at / T::width()) as int;
    let pos = O::position(at % T::width(), T::width()) as u8;
    &&& after.len() == before.len()
    &&& after[elt].value() == with_bit(before[elt].value(), pos, value)
    &&& forall|j: int| 0 <= j < before.len() && j != elt ==> after[j] == before[j]
}

/// A bit of a region lies in one of the elements that the region touches.
pub proof fn lemma_bit_in_span(head: nat, bits: nat, index: nat, width: nat)
    by (nonlinear_arith)
    requires
        valid_width(width),
        head < width,
        index < bits,
    ensures
        (head + index) / width < (head + bits + width - 1) as nat / width,
        (head + index) / width == (head + index) as int / (width as int),
        (head + index) % width == (head + index) as int % (width as int),
        (head + index) % width < width,
{
}

impl<O: BitOrder, T: BitStore> BitPtr<O, T> {
    /// Reads the bit that lies `index` bits after the head of the region. The caller knows
    /// that the bit is one of the region's, and hands in the elements that the region touches.
    pub fn read(&self, mem: &[T], index: usize) -> (r: bool)
        requires
            index < self@.bits,
            self@.elements(T::width()) <= mem@.len(),
        ensures
            r == bit_of::<O, T>(mem@, self@.head + index as nat),
    {
        proof {
            use_type_invariant(self);
            T::width_is_valid();
            lemma_bit_in_span(self@.head, self@.bits, index as nat, T::width());
        }
        let (elt, bit) = self.head().offset(index as isize);
        let pos = O::at(bit);
        mem[elt as usize].get_bit(pos.value())
    }

    /// Sets the bit that lies `index` bits after the head of the region to `value`. The caller
    /// knows that the bit is one of the region's, and hands in the elements that the region
    /// touches. Nothing but that bit changes.
    pub fn write(&self, mem: &mut [T], index: usize, value: bool)
        requires
            index < self@.bits,
            self@.elements(T::width()) <= old(mem)@.len(),
        ensures
            written::<O, T>(old(mem)@, final(mem)@, self@.head + index as nat, value),
    {
        proof {
            use_type_invariant(self);
            T::width_is_valid();
            lemma_bit_in_span(self@.head, self@.bits, index as nat, T::width());
        }
        let (elt, bit) = self.head().offset(index as isize);
        let pos = O::at(bit);
        let changed = mem[elt as usize].set_bit(pos.value(), value);
        mem[elt as usize] = changed;
    }
}

/// A bit that has been written reads as the value that was written, and every other bit reads
/// as it did before: the other bits of the element that was touched, and the bits of all other
/// elements.
pub proof fn lemma_write_then_read<O: BitOrder, T: BitStore>(
    before: Seq<T>,
    after: Seq<T>,
    at: nat,
    value: bool,
    other: nat,
)
    requires
        written::<O, T>(before, after, at, value),
        at / T::width() < before.len(),
        other / T::width() < before.len(),
    ensures
        bit_of::<O, T>(after, at) == value,
        other != at ==> bit_of::<O, T>(after, other) == bit_of::<O, T>(before, other),
{
    let width = T::width();
    T::width_is_valid();
    lemma_width_arith(at, width);
    lemma_width_arith(other, width);
    O::position_in_range(at % width, width);
    O::position_in_range(other % width, width);
    let pos = O::position(at % width, width) as u8;
    let other_pos = O::position(other % width, width) as u8;
    lemma_with_bit(before[(at / width) as int].value(), pos, value, other_pos);
    if other != at && other / width == at / width {
        O::position_is_injective(at % width, other % width, width);
    }
}

/// Moving on by whole elements moves the element of a bit on by as many, and leaves its index.
pub proof fn lemma_skip_elements(at: nat, skip: nat, width: nat)
    by (nonlinear_arith)
    requires
        valid_width(width),
    ensures
        (at + skip * width) / width == at / width + skip,
        (at + skip * width) % width == at % width,
{
}

/// A region that lies within another one, over elements of the same type, holds the bits that
/// the other holds at the same places. Here `inner` begins `offset` bits after `outer` begins
/// and ends no later than it, its first element is the one `skip` elements after the first
/// element of `outer`, and `mem` holds the elements of `outer`.
pub proof fn lemma_part_bits<O: BitOrder, T: BitStore>(
    mem: Seq<T>,
    outer: Region,
    inner: Region,
    skip: nat,
    offset: nat,
)
    requires
        outer.head < T::width(),
        outer.elements(T::width()) <= mem.len(),
        inner.head + skip * T::width() == outer.head + offset,
        offset + inner.bits <= outer.bits,
    ensures
        bits_of::<O, T>(mem.skip(skip as int), inner) == bits_of::<O, T>(mem, outer).subrange(
            offset as int,
            (offset + inner.bits) as int,
        ),
{
    T::width_is_valid();
    let width = T::width();
    let part = mem.skip(skip as int);
    assert forall|i: int| 0 <= i < inner.bits implies bits_of::<O, T>(part, inner)[i] == bits_of::<
        O,
        T,
    >(mem, outer)[offset + i] by {
        let at = (inner.head + i) as nat;
        lemma_skip_elements(at, skip, width);
        lemma_bit_in_span(outer.head, outer.bits, (offset + i) as nat, width);
    }
    assert(bits_of::<O, T>(part, inner) =~= bits_of::<O, T>(mem, outer).subrange(
        offset as int,
        (offset + inner.bits) as int,
    ));
}

/// Regions that hold no bit have the same contents, wherever they lie: none.
pub proof fn lemma_empty_regions_agree<O: BitOrder, T: BitStore>(
    first_mem: Seq<T>,
    first: Region,
    second_mem: Seq<T>,
    second: Region,
)
    requires
        first.bits == 0,
        second.bits == 0,
    ensures
        bits_of::<O, T>(first_mem, first) == bits_of::<O, T>(second_mem, second),
        bits_of::<O, T>(first_mem, first) == Seq::<bool>::empty(),
{
    assert(bits_of::<O, T>(first_mem, first) =~= Seq::<bool>::empty());
    assert(bits_of::<O, T>(second_mem, second) =~= Seq::<bool>::empty());
}

impl<O: BitOrder, T: BitStore> BitPtr<O, T> {
    /// Reads all the bits of the region, in order.
    pub fn read_all(&self, mem: &[T]) -> (r: Vec<bool>)
        requires
            self@.elements(T::width()) <= mem@.len(),
        ensures
            r@ == bits_of::<O, T>(mem@, self@),
    {
        let len = self.len();
        let mut out: Vec<bool> = Vec::new();
        let mut index: usize = 0;
        while index < len
            invariant
                index <= len,
                len as nat == self@.bits,
                self@.elements(T::width()) <= mem@.len(),
                out@.len() == index,
                forall|i: int|
                    0 <= i < index ==> out@[i] == bit_of::<O, T>(mem@, (self@.head + i) as nat),
            decreases len - index,
        {
            let bit = self.read(mem, index);
            out.push(bit);
            index += 1;
        }
        assert(out@ =~= bits_of::<O, T>(mem@, self@));
        out
    }
}

} // verus!
