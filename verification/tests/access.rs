use bitvec::index::BitIdx;
use bitvec::order::{BitOrder, Lsb0, Msb0};
use bitvec::ptr::BitPtr;
use bitvec::store::BitStore;

#[test]
fn read_follows_the_order() {
    let mem = [0b1000_0001u8, 0b0100_0000];
    let msb = BitPtr::<Msb0, u8>::new(0x1000, BitIdx::new(0).unwrap(), 16).unwrap();
    assert!(msb.read(&mem, 0));
    assert!(!msb.read(&mem, 1));
    assert!(msb.read(&mem, 7));
    assert!(!msb.read(&mem, 8));
    assert!(msb.read(&mem, 9));
    let lsb = BitPtr::<Lsb0, u8>::new(0x1000, BitIdx::new(0).unwrap(), 16).unwrap();
    assert!(lsb.read(&mem, 0));
    assert!(lsb.read(&mem, 7));
    assert!(!lsb.read(&mem, 9));
    assert!(lsb.read(&mem, 14));
}

#[test]
fn read_counts_from_the_head() {
    let mem = [0x00u16, 0x8001];
    let p = BitPtr::<Lsb0, u16>::new(0x1000, BitIdx::new(15).unwrap(), 17).unwrap();
    assert!(!p.read(&mem, 0));
    assert!(p.read(&mem, 1));
    assert!(!p.read(&mem, 2));
    assert!(p.read(&mem, 16));
    assert_eq!(p.read_all(&mem).len(), 17);
}

#[test]
fn write_then_read() {
    let mut mem = [0xF0F0_F0F0u32, 0x0F0F_0F0F];
    let p = BitPtr::<Msb0, u32>::new(0x1000, BitIdx::new(5).unwrap(), 50).unwrap();
    for index in 0..50 {
        for &value in &[true, false] {
            let before = mem;
            let others: Vec<bool> = p.read_all(&mem);
            p.write(&mut mem, index, value);
            assert_eq!(p.read(&mem, index), value);
            let after: Vec<bool> = p.read_all(&mem);
            for other in 0..50 {
                if other != index {
                    assert_eq!(after[other], others[other]);
                }
            }
            let elt = (5 + index) / 32;
            assert_eq!(mem[1 - elt], before[1 - elt]);
            let changed = mem[elt] ^ before[elt];
            assert!(changed == 0 || changed.count_ones() == 1);
            mem = before;
        }
    }
}

#[test]
fn write_sets_one_bit() {
    let mut mem = [0u8; 2];
    let p = BitPtr::<Msb0, u8>::new(0x1000, BitIdx::new(2).unwrap(), 10).unwrap();
    p.write(&mut mem, 0, true);
    assert_eq!(mem, [0b0010_0000, 0]);
    p.write(&mut mem, 6, true);
    assert_eq!(mem, [0b0010_0000, 0b1000_0000]);
    p.write(&mut mem, 0, false);
    assert_eq!(mem, [0, 0b1000_0000]);
}

#[test]
fn orders_are_one_to_one() {
    for index in 0..64u8 {
        let msb = Msb0::at(BitIdx::<u64>::new(index).unwrap()).value();
        let lsb = Lsb0::at(BitIdx::<u64>::new(index).unwrap()).value();
        assert_eq!(msb, 63 - index);
        assert_eq!(lsb, index);
    }
    assert_eq!(Msb0::at(BitIdx::<u8>::new(0).unwrap()).value(), 7);
    assert_eq!(Msb0::label(), "bitvec::order::Msb0");
    assert_eq!(Lsb0::label(), "bitvec::order::Lsb0");
}

#[test]
fn elements_hold_bits() {
    assert!(0x80u8.get_bit(7));
    assert!(!0x80u8.get_bit(6));
    assert_eq!(0u64.set_bit(63, true), 1 << 63);
    assert_eq!(0xffffu16.set_bit(4, false), 0xffef);
    assert_eq!(<u32 as BitStore>::bits(), 32);
    assert_eq!(<usize as BitStore>::bits() as u32, usize::BITS);
    assert_eq!(<u8 as BitStore>::zero(), 0);
    assert_eq!(bitvec::store::indx::<u16>(), 4);
    assert_eq!(bitvec::store::mask::<u16>(), 15);
    assert_eq!(bitvec::store::elts::<u16>(40), 3);
    assert_eq!(bitvec::store::elts::<u8>(0), 0);
    assert_eq!(<u64 as BitStore>::label(), "u64");
}
