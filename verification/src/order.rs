//! Bit orderings.
//!
//! A region counts the bits of an element in an order of its own choosing. An ordering maps the
//! index of a bit in that count to the place of the bit in the element's value. Two orderings
//! are given here; any other one-to-one mapping can be added by implementing [`BitOrder`].

use vstd::prelude::*;
use crate::index::{BitIdx, BitPos};
use crate::store::{BitStore, valid_width};

verus! {

/// A one-to-one mapping from the indices of the bits of an element to their places in its
/// value.
pub trait BitOrder {
    /// The place, counted from the least significant bit, of the bit with the given index in
    /// an element that is `width` bits wide.
    spec fn position(index: nat, width: nat) -> nat;

    /// Every index is mapped to a place within the element.
    proof fn position_in_range(index: nat, width: nat)
        requires
            valid_width(width),
            index < width,
        ensures
            Self::position(index, width) < width,
    ;

    /// No two indices are mapped to the same place.
    proof fn position_is_injective(first: nat, second: nat, width: nat)
        requires
            valid_width(width),
            first < width,
            second < width,
            first != second,
        ensures
            Self::position(first, width) != Self::position(second, width),
    ;

    /// The name of the ordering.
    spec fn label_text() -> Seq<char>;

    /// Maps an index to its place.
    fn at<T: BitStore>(index: BitIdx<T>) -> (pos: BitPos<T>)
        ensures
            pos@ == Self::position(index@, T::width()),
    ;

    /// The name of the ordering.
    fn label() -> (r: &'static str)
        ensures
            r@ == Self::label_text(),
    ;
}

/// The ordering that counts from the most significant bit of an element down.
#[derive(Debug, Clone, Copy, PartialEq, Eq, Hash, Default)]
pub struct Msb0;

/// The ordering that counts from the least significant bit of an element up.
#[derive(Debug, Clone, Copy, PartialEq, Eq, Hash, Default)]
pub struct Lsb0;

impl BitOrder for Msb0 {
    open spec fn position(index: nat, width: nat) -> nat {
        (width - 1 - index) as nat
    }

    proof fn position_in_range(index: nat, width: nat) {
    }

    proof fn position_is_injective(first: nat, second: nat, width: nat) {
    }

    open spec fn label_text() -> Seq<char> {
        "bitvec::order::Msb0"@
    }

    fn at<T: BitStore>(index: BitIdx<T>) -> (pos: BitPos<T>) {
        let idx = index.value();
        BitPos::new_unchecked(T::bits() - 1 - idx)
    }

    fn label() -> (r: &'static str) {
        "bitvec::order::Msb0"
    }
}

impl BitOrder for Lsb0 {
    open spec fn position(index: nat, width: nat) -> nat {
        index
    }

    proof fn position_in_range(index: nat, width: nat) {
    }

    proof fn position_is_injective(first: nat, second: nat, width: nat) {
    }

    open spec fn label_text() -> Seq<char> {
        "bitvec::order::Lsb0"@
    }

    fn at<T: BitStore>(index: BitIdx<T>) -> (pos: BitPos<T>) {
        BitPos::new_unchecked(index.value())
    }

    fn label() -> (r: &'static str) {
        "bitvec::order::Lsb0"
    }
}

} // verus!
