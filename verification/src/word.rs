//! A machine word that is never zero.
//!
//! The address word of a region pointer is held in this form, so that the pattern of all zero
//! bits is free to stand for the absence of a pointer.

use vstd::prelude::*;
use core::num::NonZeroUsize;

verus! {

/// A machine word that is not zero, held as `core::num::NonZeroUsize`.
#[verifier::external_body]
#[derive(Debug)]
pub struct NonZeroWord {
    inner: NonZeroUsize,
}

/// The number that a non-zero word holds.
pub uninterp spec fn word_value(word: NonZeroWord) -> usize;

impl Clone for NonZeroWord {
    /// The copy of a word, which is the word.
    fn clone(&self) -> (r: Self)
        ensures
            r == *self,
    {
        *self
    }
}

impl Copy for NonZeroWord {
}

impl NonZeroWord {
    /// Makes a non-zero word of `value`, through `core::num::NonZeroUsize::new`. The claim is
    /// that there is a word exactly when `value` is not zero, and that it holds `value`.
    #[verifier::external_body]
    pub(crate) fn new(value: usize) -> (r: Option<Self>)
        ensures
            r is Some <==> value != 0,
            r matches Some(word) ==> word_value(word) == value,
    {
        match NonZeroUsize::new(value) {
            Some(inner) => Some(NonZeroWord { inner }),
            None => None,
        }
    }

    /// The number that the word holds, through `core::num::NonZeroUsize::get`. The claim is
    /// that it is the value of the word, and not zero.
    #[verifier::external_body]
    pub(crate) fn get(self) -> (r: usize)
        ensures
            r == word_value(self),
            r != 0,
    {
        self.inner.get()
    }
}

} // verus!
