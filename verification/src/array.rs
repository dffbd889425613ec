//! Viewing a region as a bit array.
//!
//! A bit array is a whole number of elements, all of whose bits are live. A region can be
//! seen as an array of a given number of bits only if it holds exactly that many bits and
//! begins at the first bit of its first element.

use vstd::prelude::*;
use vstd::string::StringExecFns;
use crate::order::BitOrder;
use crate::ptr::{Address, BitPtr};
use crate::store::BitStore;
use crate::fmt::render_text;

verus! {

/// The error of a region that cannot be seen as a bit array. It holds the pointer to the
/// region.
#[derive(Debug, PartialEq, Eq)]
pub struct TryFromBitSliceError<O: BitOrder, T: BitStore> {
    inner: BitPtr<O, T>,
}

impl<O: BitOrder, T: BitStore> Clone for TryFromBitSliceError<O, T> {
    fn clone(&self) -> (r: Self)
        ensures
            r == *self,
    {
        *self
    }
}

impl<O: BitOrder, T: BitStore> Copy for TryFromBitSliceError<O, T> {
}

impl<O: BitOrder, T: BitStore> TryFromBitSliceError<O, T> {
    /// The pointer to the region that could not be seen as an array.
    pub closed spec fn inner(self) -> BitPtr<O, T> {
        self.inner
    }

    /// The failure to see the region of `inner` as an array.
    pub fn err<A>(inner: BitPtr<O, T>) -> (r: Result<A, Self>)
        ensures
            r matches Err(e) && e.inner() == inner,
    {
        Err(TryFromBitSliceError { inner })
    }

    /// The pointer to the region that could not be seen as an array.
    pub fn into_inner(self) -> (r: BitPtr<O, T>)
        ensures
            r == self.inner(),
    {
        self.inner
    }

    /// The error as text: what failed, and the rendering of the pointer to the region.
    pub fn message(&self) -> (out: String)
        ensures
            out@ == "could not convert bitslice to bitarray: "@ + render_text(
                O::label_text(),
                T::label_text(),
                "Slice"@,
                self.inner()@,
                T::width(),
                Seq::empty(),
            ),
    {
        let mut out = String::from_str("could not convert bitslice to bitarray: ");
        let fields: [(&str, &str); 0] = [];
        let rendered = self.inner.render("Slice", fields.as_slice());
        proof {
            assert(fields@ =~= Seq::<(&str, &str)>::empty());
        }
        out.append(rendered.as_str());
        out
    }
}

/// Sees the region of `src` as an array of `bits` bits: gives the address of the array's
/// first element where the region holds exactly `bits` bits and begins at the first bit of
/// its first element, and the error that holds `src` otherwise.
pub fn try_array_address<O: BitOrder, T: BitStore>(src: BitPtr<O, T>, bits: usize) -> (r: Result<
    Address<T>,
    TryFromBitSliceError<O, T>,
>)
    ensures
        r is Ok <==> src@.bits == bits && src@.head == 0,
        r matches Ok(addr) ==> addr@ == src@.addr,
        r matches Err(e) ==> e.inner() == src,
{
    if src.len() != bits || src.head().value() != 0 {
        return TryFromBitSliceError::err(src);
    }
    Ok(src.pointer())
}

} // verus!
