//! Bit-region pointers: the encoding of a run of bits in memory as two machine words.

pub mod store;
pub mod word;
pub mod index;
pub mod order;
pub mod ptr;
pub mod domain;
pub mod align;
pub mod access;
pub mod layout;
pub mod fmt;
pub mod array;
pub mod vec;
