use bitvec::index::{BitIdx, BitTail};
use bitvec::order::{Lsb0, Msb0};
use bitvec::ptr::{bitslice_from_raw_parts, bitslice_from_raw_parts_mut, Address, BitPtr, REGION_MAX_BITS};

fn idx8(value: u8) -> BitIdx<u8> {
    BitIdx::new(value).unwrap()
}

fn ptr8(addr: usize, head: u8, bits: usize) -> BitPtr<Msb0, u8> {
    BitPtr::new(addr, idx8(head), bits).unwrap()
}

#[test]
fn components() {
    let base = 0x1000usize;
    let whole = ptr8(base, 0, 24);
    let partial = ptr8(base, 2, 20);
    assert_eq!(partial.pointer().value(), whole.pointer().value());
    assert_eq!(partial.elements(), 3);
    assert_eq!(partial.head().value(), 2);
    assert_eq!(partial.len(), 20);
}

#[test]
fn ptr_diff() {
    let base = 0x2000usize;
    let a = ptr8(base, 2, 1);
    let b = ptr8(base + 1, 4, 1);
    assert_eq!(a.ptr_diff(&b), (1, 2));

    let a = ptr8(base, 5, 1);
    let b = ptr8(base + 1, 2, 1);
    assert_eq!(a.ptr_diff(&b), (1, -3));

    let a = ptr8(base + 1, 0, 1);
    let b = ptr8(base, 4, 1);
    assert_eq!(a.ptr_diff(&b), (-1, 4));

    let a = ptr8(base + 1, 6, 1);
    let b = ptr8(base, 1, 1);
    assert_eq!(a.ptr_diff(&b), (-1, -5));
}

#[test]
fn format() {
    let bits = ptr8(0x7ffd_1230, 0, 4);
    let render = bits.render("Ptr", &[]);
    assert!(render.starts_with("BitPtr<bitvec::order::Msb0, u8> { addr: 0x"));
    assert!(render.ends_with(", head: 000, bits: 4 }"));
    assert_eq!(render, "BitPtr<bitvec::order::Msb0, u8> { addr: 0x7ffd1230, head: 000, bits: 4 }");
}

#[test]
fn round_trip() {
    for &(addr, head, bits) in &[(0x10usize, 0u8, 0usize), (0x11, 7, 1), (0xffff_0000, 3, 12345), (8, 5, REGION_MAX_BITS >> 8)] {
        let p = BitPtr::<Lsb0, u8>::new(addr, idx8(head), bits).unwrap();
        let (a, h, l) = p.raw_parts();
        assert_eq!((a.value(), h.value(), l), (addr, head, bits));
    }
    let p = BitPtr::<Msb0, u64>::new(0x1000, BitIdx::new(63).unwrap(), 129).unwrap();
    let (a, h, l) = p.raw_parts();
    assert_eq!((a.value(), h.value(), l), (0x1000, 63, 129));
    assert_eq!(p.elements(), 3);
    assert_eq!(p.tail().value(), 64);
}

#[test]
fn length_bound() {
    assert!(BitPtr::<Msb0, u8>::new(0x1000, idx8(0), REGION_MAX_BITS + 1).is_none());
    assert!(BitPtr::<Msb0, u8>::new(0x1000, idx8(0), REGION_MAX_BITS).is_some());
    assert_eq!(REGION_MAX_BITS, usize::MAX >> 3);
}

#[test]
fn alignment_bound() {
    let head = BitIdx::<u32>::new(0).unwrap();
    assert!(BitPtr::<Msb0, u32>::new(0x1002, head, 8).is_none());
    assert!(BitPtr::<Msb0, u32>::new(0x1004, head, 8).is_some());
    assert!(BitPtr::<Msb0, u32>::new(0, head, 8).is_none());
    let head = BitIdx::<u64>::new(0).unwrap();
    assert!(BitPtr::<Msb0, u64>::new(0x1004, head, 8).is_none());
    assert!(BitPtr::<Msb0, u64>::new(0x1008, head, 8).is_some());
}

#[test]
fn address_space_wrap() {
    assert!(BitPtr::<Msb0, u8>::new(usize::MAX, idx8(0), 8).is_none());
    assert!(BitPtr::<Msb0, u8>::new(usize::MAX - 1, idx8(0), 8).is_some());
    assert!(BitPtr::<Msb0, u8>::new(usize::MAX - 1, idx8(1), 8).is_none());
    assert!(BitPtr::<Msb0, u8>::new(usize::MAX, idx8(3), 0).is_some());
}

#[test]
fn elements_and_tail() {
    let p = ptr8(0x1000, 2, 20);
    assert_eq!(p.elements(), 3);
    assert_eq!(p.tail().value(), 6);
    assert_eq!(ptr8(0x1000, 0, 0).tail().value(), 0);
    assert_eq!(ptr8(0x1000, 0, 0).elements(), 0);
    assert_eq!(ptr8(0x1000, 0, 16).tail().value(), 8);
    assert_eq!(ptr8(0x1000, 3, 0).tail().value(), 3);
    assert_eq!(BitTail::<u8>::new(9).is_none(), true);
}

#[test]
fn canonical_empty() {
    let empty = BitPtr::<Msb0, u16>::empty();
    assert_eq!(empty.head().value(), 0);
    assert_eq!(empty.len(), 0);
    assert_eq!(empty.pointer().value(), 2);
    let other = BitPtr::<Msb0, u16>::uninhabited(0x1000);
    assert_eq!(other.len(), 0);
    assert_eq!(other.pointer().value(), 0x1000);
    assert!(other == empty);
    assert!(other.pointer().value() != empty.pointer().value());
    let held = BitPtr::<Msb0, u16>::new(0x2000, BitIdx::new(3).unwrap(), 0).unwrap();
    assert!(held == empty);
    assert!(held == other);
    let one = BitPtr::<Msb0, u16>::new(0x1000, BitIdx::new(0).unwrap(), 1).unwrap();
    assert!(one != other);
    assert!(BitPtr::<Msb0, u16>::uninhabited(0x1001) == empty);
    assert!(BitPtr::<Msb0, u16>::uninhabited(0) == empty);
    assert!(BitPtr::<Msb0, u16>::default() == empty);
    let mem = [0u16; 1];
    assert!(empty.read_all(&mem).is_empty());
    assert_eq!(empty.read_all(&mem), other.read_all(&mem));
}

#[test]
fn head_rollover() {
    let mut p = BitPtr::<Lsb0, u16>::new(0x1000, BitIdx::new(11).unwrap(), 37).unwrap();
    for _ in 0..16 {
        p.incr_head();
        assert_eq!(p.len(), 37);
    }
    assert_eq!(p.head().value(), 11);
    assert_eq!(p.pointer().value(), 0x1002);
}

#[test]
fn mutators() {
    let mut p = BitPtr::<Lsb0, u32>::new(0x1000, BitIdx::new(9).unwrap(), 100).unwrap();
    p.set_len(7);
    assert_eq!((p.pointer().value(), p.head().value(), p.len()), (0x1000, 9, 7));
    p.set_head(BitIdx::new(31).unwrap());
    assert_eq!((p.pointer().value(), p.head().value(), p.len()), (0x1000, 31, 7));
    p.set_pointer(0x2004);
    assert_eq!((p.pointer().value(), p.head().value(), p.len()), (0x2004, 31, 7));
    p.set_pointer(0);
    assert!(p == BitPtr::<Lsb0, u32>::empty());
}

#[test]
fn equality_across_types() {
    let a = BitPtr::<Lsb0, u8>::new(0x1000, BitIdx::new(1).unwrap(), 5).unwrap();
    let b = BitPtr::<Lsb0, u16>::new(0x1000, BitIdx::new(1).unwrap(), 5).unwrap();
    let c = BitPtr::<Lsb0, u8>::new(0x1000, BitIdx::new(1).unwrap(), 5).unwrap();
    assert!(a != b);
    assert!(a == c);
}

#[test]
fn raw_words() {
    let raw = bitslice_from_raw_parts::<Msb0, u16>(0x1000, BitIdx::new(13).unwrap(), 4).unwrap();
    assert_eq!(raw.to_words(), (0x1001, (4 << 3) | 5));
    let back = BitPtr::from_bitslice_ptr(raw);
    assert_eq!(back.len(), 4);
    assert_eq!(back.head().value(), 13);
    assert_eq!(back.pointer().value(), 0x1000);
    let raw = bitslice_from_raw_parts_mut::<Msb0, u8>(0x1000, idx8(0), 4).unwrap();
    assert_eq!(BitPtr::from_bitslice_ptr_mut(raw).len(), 4);
    assert!(bitslice_from_raw_parts::<Msb0, u16>(0x1001, BitIdx::new(0).unwrap(), 4).is_none());
    assert!(bitslice_from_raw_parts_mut::<Msb0, u16>(0, BitIdx::new(0).unwrap(), 4).is_none());
    let null = bitvec::ptr::BitSlicePtr::<Msb0, u8>::null(64);
    assert!(null.is_null());
    assert!(BitPtr::from_bitslice_ptr(null) == BitPtr::<Msb0, u8>::empty());
    assert!(Address::<u8>::new(0).is_none());
    assert_eq!(Address::<u8>::new(5).unwrap().value(), 5);
}

#[test]
fn mem_size() {
    assert_eq!(
        core::mem::size_of::<BitPtr<Msb0, usize>>(),
        2 * core::mem::size_of::<usize>()
    );
    assert_eq!(
        core::mem::size_of::<Option<BitPtr<Msb0, usize>>>(),
        2 * core::mem::size_of::<usize>()
    );
}

#[test]
fn derived_comparisons() {
    let low = Address::<u8>::new(0x10).unwrap();
    let high = Address::<u8>::new(0x20).unwrap();
    assert!(low < high);
    assert_eq!(low, Address::<u8>::new(0x10).unwrap());
    assert_eq!(low.max(high), high);
    let region = BitPtr::<Lsb0, u8>::new(0x10, BitIdx::new(1).unwrap(), 3).unwrap();
    let first = bitvec::array::try_array_address(region, 8).unwrap_err();
    let second = bitvec::array::try_array_address(region, 16).unwrap_err();
    assert!(first == second);
}
