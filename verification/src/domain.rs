//! The elements that a region touches, told apart by how much of each is live.
//!
//! A region either lies within one element without reaching either of its ends, or it is made
//! of an element that is live only from some bit on, a run of elements that are live as a whole,
//! and an element that is live only up to some bit. Each of the three may be missing.

use vstd::prelude::*;
use crate::index::{BitIdx, BitTail, span_elements, span_tail};
use crate::order::BitOrder;
use crate::ptr::{Address, BitPtr, Region};
use crate::store::{BitStore, elem_bytes, lemma_bytes_arith};

verus! {

/// The elements of a region.
#[allow(inconsistent_fields)]
pub enum Domain<T: BitStore> {
    /// The region lies within the one element at `addr`, from bit `head` up to bit `tail`, and
    /// reaches neither the first nor the last bit of it.
    Enclave { head: BitIdx<T>, addr: Address<T>, tail: BitTail<T> },
    /// The region reaches an end of every element that it touches.
    Region {
        /// The first element, where the region begins after its first bit: the index at which
        /// it begins, and the address.
        head: Option<(BitIdx<T>, Address<T>)>,
        /// The elements that are live as a whole: the address of the first, and their number.
        body: (Address<T>, usize),
        /// The last element, where the region ends before its last bit: the address, and the
        /// tail index at which the region ends.
        tail: Option<(Address<T>, BitTail<T>)>,
    },
}

/// What a [`Domain`] holds, as numbers.
#[allow(inconsistent_fields)]
pub enum DomainView {
    Enclave { head: nat, addr: nat, tail: nat },
    Region { head: Option<(nat, nat)>, body: (nat, nat), tail: Option<(nat, nat)> },
}

impl<T: BitStore> View for Domain<T> {
    type V = DomainView;

    open spec fn view(&self) -> DomainView {
        match *self {
            Domain::Enclave { head, addr, tail } => DomainView::Enclave {
                head: head@,
                addr: addr@,
                tail: tail@,
            },
            Domain::Region { head, body, tail } => DomainView::Region {
                head: match head {
                    Some((idx, addr)) => Some((idx@, addr@)),
                    None => None,
                },
                body: (body.0@, body.1 as nat),
                tail: match tail {
                    Some((addr, end)) => Some((addr@, end@)),
                    None => None,
                },
            },
        }
    }
}

/// The elements of a region, for elements that are `width` bits wide.
///
/// A region of no bits has no elements. A region that begins at the first bit of an element and
/// ends at the last bit of one is all body. One that only ends at a last bit has a head element
/// before its body, and one that only begins at a first bit has a tail element after it. Of the
/// others, the region within a single element is an enclave, and the rest have a head element,
/// a body and a tail element.
pub open spec fn domain_of(region: Region, width: nat) -> DomainView {
    let elts = span_elements(region.head, region.bits, width);
    let tail = span_tail(region.head, region.bits, width);
    let bytes = elem_bytes(width);
    if elts == 0 {
        DomainView::Region { head: None, body: (region.addr, 0), tail: None }
    } else if region.head == 0 && tail == width {
        DomainView::Region { head: None, body: (region.addr, elts), tail: None }
    } else if tail == width {
        DomainView::Region {
            head: Some((region.head, region.addr)),
            body: (region.addr + bytes, (elts - 1) as nat),
            tail: None,
        }
    } else if region.head == 0 {
        DomainView::Region {
            head: None,
            body: (region.addr, (elts - 1) as nat),
            tail: Some((region.addr + ((elts - 1) as nat) * bytes, tail)),
        }
    } else if elts == 1 {
        DomainView::Enclave { head: region.head, addr: region.addr, tail }
    } else {
        DomainView::Region {
            head: Some((region.head, region.addr)),
            body: (region.addr + bytes, (elts - 2) as nat),
            tail: Some((region.addr + ((elts - 1) as nat) * bytes, tail)),
        }
    }
}

impl<O: BitOrder, T: BitStore> BitPtr<O, T> {
    /// Tells the elements of the region apart.
    pub fn domain(&self) -> (r: Domain<T>)
        ensures
            r@ == domain_of(self@, T::width()),
    {
        let addr = self.pointer();
        let head = self.head();
        let (elts, tail) = head.span(self.len());
        let bits = T::bits();
        let bytes = (bits / 8) as usize;
        proof {
            use_type_invariant(self);
            T::width_is_valid();
            lemma_bytes_arith(elts as nat, T::width());
            lemma_bytes_arith((elts - 1) as nat, T::width());
        }
        if elts == 0 {
            Domain::Region { head: None, body: (addr, 0), tail: None }
        } else if head.value() == 0 && tail.value() == bits {
            Domain::Region { head: None, body: (addr, elts), tail: None }
        } else if tail.value() == bits {
            let next = Address::new_unchecked(addr.value() + bytes);
            Domain::Region { head: Some((head, addr)), body: (next, elts - 1), tail: None }
        } else if head.value() == 0 {
            let last = Address::new_unchecked(addr.value() + (elts - 1) * bytes);
            Domain::Region { head: None, body: (addr, elts - 1), tail: Some((last, tail)) }
        } else if elts == 1 {
            Domain::Enclave { head, addr, tail }
        } else {
            let next = Address::new_unchecked(addr.value() + bytes);
            let last = Address::new_unchecked(addr.value() + (elts - 1) * bytes);
            Domain::Region {
                head: Some((head, addr)),
                body: (next, elts - 2),
                tail: Some((last, tail)),
            }
        }
    }
}

} // verus!
