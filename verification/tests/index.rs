use bitvec::array::{try_array_address, TryFromBitSliceError};
use bitvec::index::{BitIdx, BitPos, BitTail};
use bitvec::order::{Lsb0, Msb0};
use bitvec::ptr::BitPtr;

#[test]
fn index_bounds() {
    assert!(BitIdx::<u8>::new(7).is_some());
    assert!(BitIdx::<u8>::new(8).is_none());
    assert!(BitIdx::<u64>::new(63).is_some());
    assert!(BitIdx::<u64>::new(64).is_none());
    assert!(BitTail::<u16>::new(16).is_some());
    assert!(BitTail::<u16>::new(17).is_none());
    assert!(BitPos::<u32>::new(31).is_some());
    assert!(BitPos::<u32>::new(32).is_none());
    assert_eq!(BitIdx::<u32>::zero().value(), 0);
    assert_eq!(BitTail::<u32>::zero().value(), 0);
    assert_eq!(BitTail::<u32>::end().value(), 32);
}

#[test]
fn index_incr() {
    let (next, rolled) = BitIdx::<u8>::new(6).unwrap().incr();
    assert_eq!((next.value(), rolled), (7, false));
    let (next, rolled) = next.incr();
    assert_eq!((next.value(), rolled), (0, true));
}

#[test]
fn index_offset() {
    let idx = BitIdx::<u8>::new(3).unwrap();
    let (elts, bit) = idx.offset(0);
    assert_eq!((elts, bit.value()), (0, 3));
    let (elts, bit) = idx.offset(4);
    assert_eq!((elts, bit.value()), (0, 7));
    let (elts, bit) = idx.offset(5);
    assert_eq!((elts, bit.value()), (1, 0));
    let (elts, bit) = idx.offset(-3);
    assert_eq!((elts, bit.value()), (0, 0));
    let (elts, bit) = idx.offset(-4);
    assert_eq!((elts, bit.value()), (-1, 7));
    let (elts, bit) = idx.offset(-20);
    assert_eq!((elts, bit.value()), (-3, 7));
    let (elts, bit) = BitIdx::<u32>::new(31).unwrap().offset(isize::MAX);
    assert_eq!((elts, bit.value()), ((isize::MAX >> 5) + 1, 30));
    let (elts, bit) = BitIdx::<u32>::new(0).unwrap().offset(isize::MIN);
    assert_eq!((elts, bit.value()), (isize::MIN >> 5, 0));
}

#[test]
fn index_span() {
    let idx = BitIdx::<u8>::new(2).unwrap();
    let (elts, tail) = idx.span(0);
    assert_eq!((elts, tail.value()), (0, 2));
    let (elts, tail) = idx.span(6);
    assert_eq!((elts, tail.value()), (1, 8));
    let (elts, tail) = idx.span(7);
    assert_eq!((elts, tail.value()), (2, 1));
    let (elts, tail) = idx.span(20);
    assert_eq!((elts, tail.value()), (3, 6));
    let (elts, tail) = BitTail::<u8>::new(8).unwrap().span(3);
    assert_eq!((elts, tail.value()), (1, 3));
    let (elts, tail) = BitIdx::<u64>::new(63).unwrap().span(usize::MAX);
    assert_eq!((elts, tail.value()), ((usize::MAX >> 6) + 2, 62));
}

#[test]
fn array_view() {
    let whole = BitPtr::<Lsb0, u16>::new(0x1000, BitIdx::new(0).unwrap(), 32).unwrap();
    assert_eq!(try_array_address(whole, 32).unwrap().value(), 0x1000);
    let err = try_array_address(whole, 16).unwrap_err();
    assert!(err.into_inner() == whole);
    let shifted = BitPtr::<Lsb0, u16>::new(0x1000, BitIdx::new(1).unwrap(), 32).unwrap();
    assert!(try_array_address(shifted, 32).is_err());
    let failed: Result<u8, _> = TryFromBitSliceError::err(shifted);
    assert!(failed.unwrap_err().into_inner() == shifted);
}

#[test]
fn error_message() {
    let region = BitPtr::<Msb0, u16>::new(0xabc0, BitIdx::new(13).unwrap(), 1234).unwrap();
    let err = try_array_address(region, 16).unwrap_err();
    assert_eq!(
        err.message(),
        "could not convert bitslice to bitarray: \
         BitSlice<bitvec::order::Msb0, u16> { addr: 0xabc0, head: 1101, bits: 1234 }"
    );
}

#[test]
fn render_with_fields() {
    let region = BitPtr::<Lsb0, u64>::new(0x10, BitIdx::new(5).unwrap(), 0).unwrap();
    assert_eq!(
        region.render("Vec", &[("capacity", "64"), ("note", "none")]),
        "BitVec<bitvec::order::Lsb0, u64> { addr: 0x10, head: 000101, bits: 0, capacity: 64, note: none }"
    );
    assert_eq!(
        region.render_as("O", "T", "Box", &[]),
        "BitBox<O, T> { addr: 0x10, head: 000101, bits: 0 }"
    );
}
