//! Bit indices within one memory element.
//!
//! [`BitIdx`] names a live bit of an element, counted in the order that the region uses.
//! [`BitTail`] names the first dead bit after a run of live bits, and so may also be one past
//! the last bit of the element. [`BitPos`] names a bit by its place in the element's value,
//! counted from the least significant bit.

use vstd::prelude::*;
use core::marker::PhantomData;
use crate::store::{BitStore, valid_width, indx, mask, lemma_div_round_up};

verus! {

/// The number of elements that a run of `len` bits touches when it begins at bit `head` of its
/// first element. A run of no bits touches no element.
pub open spec fn span_elements(head: nat, len: nat, width: nat) -> nat {
    if len == 0 {
        0
    } else {
        (head + len + width - 1) as nat / width
    }
}

/// The index of the first dead bit after a run of `len` bits that begins at bit `head`: a number
/// from 1 to `width` for a run that holds a bit, and `head` itself for a run of none.
pub open spec fn span_tail(head: nat, len: nat, width: nat) -> nat {
    if len == 0 {
        head
    } else {
        ((head + len - 1) as nat % width) + 1
    }
}

/// Shifting right by the number of index bits divides by the width, and masking with the width
/// less one is the remainder.
pub proof fn lemma_shift_mask(x: usize, k: u8, m: u8)
    by (bit_vector)
    requires
        (k == 3 && m == 7) || (k == 4 && m == 15) || (k == 5 && m == 31) || (k == 6 && m == 63),
    ensures
        k == 3 ==> x >> k == x / 8 && x & (m as usize) == x % 8,
        k == 4 ==> x >> k == x / 16 && x & (m as usize) == x % 16,
        k == 5 ==> x >> k == x / 32 && x & (m as usize) == x % 32,
        k == 6 ==> x >> k == x / 64 && x & (m as usize) == x % 64,
{
}

/// The index of a live bit within an element of type `T`, from 0 up to the width less one.
#[derive(Debug)]
pub struct BitIdx<T: BitStore> {
    idx: u8,
    _ty: PhantomData<T>,
}

/// The index of the first dead bit after the live bits of an element of type `T`, from 0 up to
/// and including the width. It is 0 only for a region that touches no element.
#[derive(Debug)]
pub struct BitTail<T: BitStore> {
    end: u8,
    _ty: PhantomData<T>,
}

/// The place of a bit in the value of an element of type `T`, counted from the least
/// significant bit.
#[derive(Debug)]
pub struct BitPos<T: BitStore> {
    pos: u8,
    _ty: PhantomData<T>,
}

impl<T: BitStore> View for BitIdx<T> {
    type V = nat;

    closed spec fn view(&self) -> nat {
        self.idx as nat
    }
}

impl<T: BitStore> View for BitTail<T> {
    type V = nat;

    closed spec fn view(&self) -> nat {
        self.end as nat
    }
}

impl<T: BitStore> View for BitPos<T> {
    type V = nat;

    closed spec fn view(&self) -> nat {
        self.pos as nat
    }
}

impl<T: BitStore> Clone for BitIdx<T> {
    fn clone(&self) -> (r: Self)
        ensures
            r == *self,
    {
        *self
    }
}

impl<T: BitStore> Copy for BitIdx<T> {
}

impl<T: BitStore> Clone for BitTail<T> {
    fn clone(&self) -> (r: Self)
        ensures
            r == *self,
    {
        *self
    }
}

impl<T: BitStore> Copy for BitTail<T> {
}

impl<T: BitStore> Clone for BitPos<T> {
    fn clone(&self) -> (r: Self)
        ensures
            r == *self,
    {
        *self
    }
}

impl<T: BitStore> Copy for BitPos<T> {
}

impl<T: BitStore> BitIdx<T> {
    /// Every index is less than the width of its element.
    #[verifier::type_invariant]
    pub closed spec fn wf(self) -> bool {
        (self.idx as nat) < T::width()
    }

    /// What the invariant says of the view.
    pub proof fn lemma_wf(self)
        ensures
            self.wf() <==> self@ < T::width(),
    {
    }

    /// The index of the first bit of an element.
    pub fn zero() -> (r: Self)
        ensures
            r@ == 0,
    {
        proof {
            T::width_is_valid();
        }
        BitIdx { idx: 0, _ty: PhantomData }
    }

    /// Makes an index of `value`, if it is less than the width of `T`.
    pub fn new(value: u8) -> (r: Option<Self>)
        ensures
            r is Some <==> (value as nat) < T::width(),
            r matches Some(idx) ==> idx@ == value,
    {
        if value < T::bits() {
            Some(BitIdx { idx: value, _ty: PhantomData })
        } else {
            None
        }
    }

    /// Makes an index of `value`, which the caller knows to be less than the width of `T`.
    pub fn new_unchecked(value: u8) -> (r: Self)
        requires
            (value as nat) < T::width(),
        ensures
            r@ == value,
    {
        BitIdx { idx: value, _ty: PhantomData }
    }

    /// The index as a number.
    pub fn value(self) -> (r: u8)
        ensures
            r as nat == self@,
            self@ < T::width(),
    {
        proof {
            use_type_invariant(&self);
        }
        self.idx
    }

    /// The index of the next bit, and whether that bit lies in the next element. After the last
    /// bit of an element comes the first bit of the next.
    pub fn incr(self) -> (r: (Self, bool))
        ensures
            r.0@ == (self@ + 1) % T::width(),
            r.1 == (self@ + 1 == T::width()),
    {
        proof {
            use_type_invariant(&self);
            T::width_is_valid();
            lemma_small_mod(self@ + 1, T::width());
        }
        let next = self.idx + 1;
        if next == T::bits() {
            (BitIdx { idx: 0, _ty: PhantomData }, true)
        } else {
            (BitIdx { idx: next, _ty: PhantomData }, false)
        }
    }

    /// The place that lies `by` bits away from this index: the number of elements to move, which
    /// is negative towards lower addresses, and the index within the element reached.
    pub fn offset(self, by: isize) -> (r: (isize, Self))
        ensures
            r.0 == (self@ + by) / (T::width() as int),
            r.1@ == (self@ + by) % (T::width() as int),
    {
        proof {
            use_type_invariant(&self);
            T::width_is_valid();
        }
        let k = indx::<T>();
        let m = mask::<T>();
        let val = self.idx;
        if by >= 0 {
            let far: usize = by as usize + val as usize;
            proof {
                lemma_shift_mask(far, k, m);
            }
            let elts = far >> k;
            let bit = far & (m as usize);
            (elts as isize, BitIdx { idx: bit as u8, _ty: PhantomData })
        } else {
            let far: isize = by + val as isize;
            if far >= 0 {
                (0, BitIdx { idx: far as u8, _ty: PhantomData })
            } else {
                let back: usize = (-(far + 1)) as usize;
                proof {
                    lemma_shift_mask(back, k, m);
                }
                let elts = back >> k;
                let bit = back & (m as usize);
                (-(elts as isize) - 1, BitIdx { idx: m - bit as u8, _ty: PhantomData })
            }
        }
    }

    /// The number of elements that a run of `len` bits touches when it begins at this index, and
    /// the tail index at which the run ends in the last of them.
    pub fn span(self, len: usize) -> (r: (usize, BitTail<T>))
        ensures
            r.0 as nat == span_elements(self@, len as nat, T::width()),
            r.1@ == span_tail(self@, len as nat, T::width()),
    {
        proof {
            use_type_invariant(&self);
            T::width_is_valid();
            lemma_small_mod(self@, T::width());
        }
        BitTail::<T> { end: self.idx, _ty: PhantomData }.span(len)
    }
}

impl<T: BitStore> BitTail<T> {
    /// Every tail index is at most the width of its element.
    #[verifier::type_invariant]
    pub closed spec fn wf(self) -> bool {
        (self.end as nat) <= T::width()
    }

    /// What the invariant says of the view.
    pub proof fn lemma_wf(self)
        ensures
            self.wf() <==> self@ <= T::width(),
    {
    }

    /// The tail of a region that touches no element.
    pub fn zero() -> (r: Self)
        ensures
            r@ == 0,
    {
        BitTail { end: 0, _ty: PhantomData }
    }

    /// The tail of a region whose last element is live up to its last bit.
    pub fn end() -> (r: Self)
        ensures
            r@ == T::width(),
    {
        BitTail { end: T::bits(), _ty: PhantomData }
    }

    /// Makes a tail index of `value`, if it is at most the width of `T`.
    pub fn new(value: u8) -> (r: Option<Self>)
        ensures
            r is Some <==> (value as nat) <= T::width(),
            r matches Some(tail) ==> tail@ == value,
    {
        if value <= T::bits() {
            Some(BitTail { end: value, _ty: PhantomData })
        } else {
            None
        }
    }

    /// Makes a tail index of `value`, which the caller knows to be at most the width of `T`.
    pub fn new_unchecked(value: u8) -> (r: Self)
        requires
            (value as nat) <= T::width(),
        ensures
            r@ == value,
    {
        BitTail { end: value, _ty: PhantomData }
    }

    /// The tail index as a number.
    pub fn value(self) -> (r: u8)
        ensures
            r as nat == self@,
            self@ <= T::width(),
    {
        proof {
            use_type_invariant(&self);
        }
        self.end
    }

    /// The number of elements that a run of `len` bits touches when it begins where this tail
    /// stands, and the tail index at which the run ends in the last of them. A tail that stands
    /// at the end of its element begins the run in the next one.
    pub fn span(self, len: usize) -> (r: (usize, Self))
        ensures
            r.0 as nat == span_elements(self@ % T::width(), len as nat, T::width()),
            r.1@ == (if len == 0 {
                self@
            } else {
                span_tail(self@ % T::width(), len as nat, T::width())
            }),
    {
        proof {
            use_type_invariant(&self);
            T::width_is_valid();
        }
        if len == 0 {
            return (0, self);
        }
        let k = indx::<T>();
        let m = mask::<T>();
        let bits = T::bits();
        proof {
            lemma_shift_mask(self.end as usize, k, m);
        }
        let head = (self.end as usize & m as usize) as u8;
        let bits_in_head = (bits - head) as usize;
        if len <= bits_in_head {
            proof {
                lemma_span_within(head as nat, len as nat, T::width());
            }
            return (1, BitTail { end: head + len as u8, _ty: PhantomData });
        }
        let bits_after_head = len - bits_in_head;
        proof {
            lemma_shift_mask(bits_after_head, k, m);
            lemma_span_beyond(head as nat, len as nat, T::width());
        }
        let elts = bits_after_head >> k;
        let tail = (bits_after_head & m as usize) as u8;
        if tail == 0 {
            (elts + 1, BitTail { end: bits, _ty: PhantomData })
        } else {
            (elts + 2, BitTail { end: tail, _ty: PhantomData })
        }
    }
}

impl<T: BitStore> BitPos<T> {
    /// Every position is less than the width of its element.
    #[verifier::type_invariant]
    pub closed spec fn wf(self) -> bool {
        (self.pos as nat) < T::width()
    }

    /// What the invariant says of the view.
    pub proof fn lemma_wf(self)
        ensures
            self.wf() <==> self@ < T::width(),
    {
    }

    /// Makes a position of `value`, if it is less than the width of `T`.
    pub fn new(value: u8) -> (r: Option<Self>)
        ensures
            r is Some <==> (value as nat) < T::width(),
            r matches Some(pos) ==> pos@ == value,
    {
        if value < T::bits() {
            Some(BitPos { pos: value, _ty: PhantomData })
        } else {
            None
        }
    }

    /// Makes a position of `value`, which the caller knows to be less than the width of `T`.
    pub fn new_unchecked(value: u8) -> (r: Self)
        requires
            (value as nat) < T::width(),
        ensures
            r@ == value,
    {
        BitPos { pos: value, _ty: PhantomData }
    }

    /// The position as a number.
    pub fn value(self) -> (r: u8)
        ensures
            r as nat == self@,
            self@ < T::width(),
    {
        proof {
            use_type_invariant(&self);
        }
        self.pos
    }
}

/// A number below the width is its own remainder, and the width itself leaves none.
proof fn lemma_small_mod(x: nat, width: nat)
    requires
        valid_width(width),
        x <= width,
    ensures
        x < width ==> x % width == x && x / width == 0,
        x == width ==> x % width == 0 && x / width == 1,
{
    if width == 8 {
    } else if width == 16 {
    } else if width == 32 {
    } else {
    }
}

/// A run that ends within the element in which it begins touches that one element.
proof fn lemma_span_within(head: nat, len: nat, width: nat)
    requires
        valid_width(width),
        head < width,
        0 < len <= width - head,
    ensures
        span_elements(head, len, width) == 1,
        span_tail(head, len, width) == head + len,
{
    lemma_div_round_up((head + len) as nat, width);
    lemma_div_round_up((head + len - 1) as nat, width);
    if width == 8 {
    } else if width == 16 {
    } else if width == 32 {
    } else {
    }
}

/// A run that goes on beyond the element in which it begins touches that element, the whole
/// elements that the rest of it fills, and one more where a remainder is left.
proof fn lemma_span_beyond(head: nat, len: nat, width: nat)
    requires
        valid_width(width),
        head < width,
        len > width - head,
    ensures
        ({
            let rest = (len - (width - head)) as nat;
            &&& rest % width == 0 ==> span_elements(head, len, width) == rest / width + 1
                && span_tail(head, len, width) == width
            &&& rest % width != 0 ==> span_elements(head, len, width) == rest / width + 2
                && span_tail(head, len, width) == rest % width
        }),
{
    let rest = (len - (width - head)) as nat;
    lemma_div_round_up(rest, width);
    if width == 8 {
        assert(head + len == rest + 8);
    } else if width == 16 {
        assert(head + len == rest + 16);
    } else if width == 32 {
        assert(head + len == rest + 32);
    } else {
        assert(head + len == rest + 64);
    }
}

} // verus!
