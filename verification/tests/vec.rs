use bitvec::index::BitIdx;
use bitvec::order::{Lsb0, Msb0};
use bitvec::ptr::BitPtr;
use bitvec::vec::BitVec;

#[test]
fn push() {
    let mut bvm08 = BitVec::<Msb0, u8>::new();
    assert!(bvm08.is_empty());

    bvm08.push(false);
    assert_eq!(bvm08.len(), 1);
    assert!(!bvm08.get(0).unwrap());

    bvm08.push(true);
    assert_eq!(bvm08.len(), 2);
    assert!(bvm08.get(1).unwrap());

    bvm08.extend_from_slice(&[true; 3]);
    bvm08.extend_from_slice(&[false; 3]);
    assert_eq!(
        bvm08.to_vec(),
        vec![false, true, true, true, true, false, false, false]
    );
    assert_eq!(bvm08.as_slice(), &[0b0111_1000u8]);
}

#[test]
fn force_align() {
    let data = [0xA5u8];
    let bits = BitPtr::<Msb0, u8>::new(0x1000, BitIdx::new(2).unwrap(), 6).unwrap();

    let mut bv = BitVec::from_region(&data, &bits);
    assert_eq!(bv.as_slice(), &[0xA5u8]);
    bv.force_align();
    assert_eq!(bv.as_slice(), &[0b1001_0101]);
    bv.force_align();
    assert_eq!(bv.as_slice(), &[0b1001_0101]);
}

#[test]
fn inspect() {
    let bv = BitVec::<Lsb0, u16>::repeat(false, 40);
    assert_eq!(bv.elements(), 3);
}

#[test]
fn repeat_and_elements() {
    let bv = BitVec::<Lsb0, u16>::repeat(false, 40);
    assert_eq!(bv.len(), 40);
    assert_eq!(bv.get(39), Some(false));
    assert_eq!(bv.get(40), None);
    let ones = BitVec::<Lsb0, u16>::repeat(true, 17);
    assert_eq!(ones.as_slice(), &[0xffffu16, 1]);
}

#[test]
fn force_align_across_elements() {
    let data = [0b0000_0111u16, 0b1010_0000_0000_0001];
    let region = BitPtr::<Lsb0, u16>::new(0x2000, BitIdx::new(14).unwrap(), 3).unwrap();
    let mut bv = BitVec::from_region(&data, &region);
    assert_eq!(bv.to_vec(), vec![false, false, true]);
    assert_eq!(bv.elements(), 2);
    bv.force_align();
    assert_eq!(bv.to_vec(), vec![false, false, true]);
    assert_eq!(bv.elements(), 1);
    assert_eq!(bv.bitptr().head().value(), 0);
}

#[test]
fn from_bools_orders() {
    let bits = [true, false, false, false, false, false, false, true, true];
    let msb = BitVec::<Msb0, u8>::from_bools(&bits);
    assert_eq!(msb.as_slice(), &[0b1000_0001u8, 0b1000_0000]);
    let lsb = BitVec::<Lsb0, u8>::from_bools(&bits);
    assert_eq!(lsb.as_slice(), &[0b1000_0001u8, 0b0000_0001]);
    assert_eq!(msb.to_vec(), lsb.to_vec());
}
