use bitvec::index::BitIdx;
use bitvec::order::{Lsb0, Msb0};
use bitvec::ptr::BitPtr;

const BYTES: [u8; 16] = [
    0x96, 0x3c, 0xa5, 0x0f, 0xf0, 0x11, 0x22, 0x33, 0x44, 0x55, 0x66, 0x77, 0x88, 0x99, 0xaa, 0xbb,
];

const BASE: usize = 0x1001;

fn words_from(at: usize, count: usize, most_significant_first: bool) -> Vec<u32> {
    let mut out = Vec::new();
    for k in 0..count {
        let from = at + 4 * k;
        let four = [BYTES[from], BYTES[from + 1], BYTES[from + 2], BYTES[from + 3]];
        out.push(if most_significant_first {
            u32::from_be_bytes(four)
        } else {
            u32::from_le_bytes(four)
        });
    }
    out
}

#[test]
fn realigned_parts_read_in_turn_least_significant_first() {
    let p = BitPtr::<Lsb0, u8>::new(BASE, BitIdx::new(5).unwrap(), 3 + 14 * 8 + 2).unwrap();
    let all = p.read_all(&BYTES);
    let (left, center, right) = p.align_to::<u32>();
    assert_eq!((left.len(), center.len(), right.len()), (19, 96, 2));
    let middle = words_from(center.pointer().value() - BASE, center.elements(), false);
    let mut read = left.read_all(&BYTES[left.pointer().value() - BASE..]);
    read.extend(center.read_all(&middle));
    read.extend(right.read_all(&BYTES[right.pointer().value() - BASE..]));
    assert_eq!(read, all);
}

#[test]
fn realigned_parts_read_in_turn_most_significant_first() {
    let p = BitPtr::<Msb0, u8>::new(BASE, BitIdx::new(5).unwrap(), 3 + 14 * 8 + 2).unwrap();
    let all = p.read_all(&BYTES);
    let (left, center, right) = p.align_to::<u32>();
    assert_eq!((left.len(), center.len(), right.len()), (19, 96, 2));
    let middle = words_from(center.pointer().value() - BASE, center.elements(), true);
    let mut read = left.read_all(&BYTES[left.pointer().value() - BASE..]);
    read.extend(center.read_all(&middle));
    read.extend(right.read_all(&BYTES[right.pointer().value() - BASE..]));
    assert_eq!(read, all);
}

#[test]
fn realigned_middle_differs_where_the_orders_disagree() {
    let p = BitPtr::<Msb0, u8>::new(BASE, BitIdx::new(5).unwrap(), 3 + 14 * 8 + 2).unwrap();
    let all = p.read_all(&BYTES);
    let (left, center, _right) = p.align_to::<u32>();
    let middle = words_from(center.pointer().value() - BASE, center.elements(), false);
    let read = center.read_all(&middle);
    assert_ne!(read[..], all[left.len()..left.len() + center.len()]);
}

#[test]
fn realigned_parts_of_one_width_read_in_turn() {
    let mem: [u16; 5] = [0x963c, 0xa50f, 0xf011, 0x2233, 0x4455];
    let base = 0x2000usize;
    let p = BitPtr::<Msb0, u16>::new(base, BitIdx::new(11).unwrap(), 5 + 3 * 16 + 7).unwrap();
    let all = p.read_all(&mem);
    let (left, center, right) = p.align_to::<u16>();
    assert_eq!((left.len(), center.len(), right.len()), (5, 48, 7));
    let from = (center.pointer().value() - base) / 2;
    let mut read = left.read_all(&mem[(left.pointer().value() - base) / 2..]);
    read.extend(center.read_all(&mem[from..]));
    read.extend(right.read_all(&mem[(right.pointer().value() - base) / 2..]));
    assert_eq!(read, all);
}
