use bitvec::align::align_elements;
use bitvec::domain::Domain;
use bitvec::index::BitIdx;
use bitvec::order::Msb0;
use bitvec::ptr::{Address, BitPtr};

fn parts<T: bitvec::store::BitStore>(p: &BitPtr<Msb0, T>) -> (usize, u8, usize) {
    (p.pointer().value(), p.head().value(), p.len())
}

#[test]
fn domain_of_an_enclave() {
    let p = BitPtr::<Msb0, u8>::new(0x1000, BitIdx::new(2).unwrap(), 3).unwrap();
    match p.domain() {
        Domain::Enclave { head, addr, tail } => {
            assert_eq!((head.value(), addr.value(), tail.value()), (2, 0x1000, 5));
        },
        Domain::Region { .. } => panic!("an enclave was expected"),
    }
}

#[test]
fn domain_of_a_region() {
    let p = BitPtr::<Msb0, u8>::new(0x1000, BitIdx::new(2).unwrap(), 20).unwrap();
    match p.domain() {
        Domain::Region { head, body, tail } => {
            let (idx, addr) = head.unwrap();
            assert_eq!((idx.value(), addr.value()), (2, 0x1000));
            assert_eq!((body.0.value(), body.1), (0x1001, 1));
            let (addr, end) = tail.unwrap();
            assert_eq!((addr.value(), end.value()), (0x1002, 6));
        },
        Domain::Enclave { .. } => panic!("a region was expected"),
    }
    let whole = BitPtr::<Msb0, u16>::new(0x1000, BitIdx::new(0).unwrap(), 32).unwrap();
    match whole.domain() {
        Domain::Region { head, body, tail } => {
            assert!(head.is_none() && tail.is_none());
            assert_eq!((body.0.value(), body.1), (0x1000, 2));
        },
        Domain::Enclave { .. } => panic!("a region was expected"),
    }
    let empty = BitPtr::<Msb0, u16>::uninhabited(0x1000);
    match empty.domain() {
        Domain::Region { head, body, tail } => {
            assert!(head.is_none() && tail.is_none());
            assert_eq!(body.1, 0);
        },
        Domain::Enclave { .. } => panic!("a region was expected"),
    }
}

#[test]
fn elements_split_around_wider_ones() {
    let addr = Address::<u8>::new(0x1001).unwrap();
    assert_eq!(align_elements::<u8, u32>(addr, 12), (3, 2, 1));
    assert_eq!(align_elements::<u8, u32>(addr, 2), (2, 0, 0));
    assert_eq!(align_elements::<u8, u32>(addr, 3), (3, 0, 0));
    assert_eq!(align_elements::<u8, u32>(addr, 6), (3, 0, 3));
    assert_eq!(align_elements::<u8, u8>(addr, 6), (0, 6, 0));
    let addr = Address::<u32>::new(0x1004).unwrap();
    assert_eq!(align_elements::<u32, u8>(addr, 2), (0, 8, 0));
    assert_eq!(align_elements::<u32, u64>(addr, 4), (1, 1, 1));
}

#[test]
fn align_to_splits_a_region() {
    let p = BitPtr::<Msb0, u8>::new(0x1001, BitIdx::new(5).unwrap(), 3 + 14 * 8 + 2).unwrap();
    let (left, center, right) = p.align_to::<u32>();
    assert_eq!(parts(&left), (0x1001, 5, 3 + 2 * 8));
    assert_eq!(parts(&center), (0x1004, 0, 96));
    assert_eq!(parts(&right), (0x1010, 0, 2));
    assert_eq!(left.len() + center.len() + right.len(), p.len());
}

#[test]
fn align_to_keeps_an_enclave() {
    let p = BitPtr::<Msb0, u16>::new(0x1000, BitIdx::new(3).unwrap(), 5).unwrap();
    let (left, center, right) = p.align_to::<u8>();
    assert_eq!(parts(&left), (0x1000, 3, 5));
    assert!(center == BitPtr::<Msb0, u8>::empty());
    assert!(right == BitPtr::<Msb0, u16>::empty());
}

#[test]
fn align_to_narrower_elements() {
    let p = BitPtr::<Msb0, u32>::new(0x1000, BitIdx::new(0).unwrap(), 70).unwrap();
    let (left, center, right) = p.align_to::<u16>();
    assert!(left == BitPtr::<Msb0, u32>::empty());
    assert_eq!(parts(&center), (0x1000, 0, 64));
    assert_eq!(parts(&right), (0x1008, 0, 6));
}

#[test]
fn align_to_without_a_middle() {
    let p = BitPtr::<Msb0, u8>::new(0x1001, BitIdx::new(0).unwrap(), 24).unwrap();
    let (left, center, right) = p.align_to::<u64>();
    assert_eq!(parts(&left), (0x1001, 0, 24));
    assert!(center == BitPtr::<Msb0, u64>::empty());
    assert!(right == BitPtr::<Msb0, u8>::empty());
    let q = BitPtr::<Msb0, u8>::new(0x1003, BitIdx::new(0).unwrap(), 42).unwrap();
    let (left, center, right) = q.align_to::<u32>();
    assert_eq!(parts(&left), (0x1003, 0, 8));
    assert_eq!(parts(&center), (0x1004, 0, 32));
    assert_eq!(parts(&right), (0x1008, 0, 2));
}

#[test]
fn align_to_edges_hold_the_same_bits() {
    let mem: [u8; 16] = [
        0x96, 0x3c, 0xa5, 0x0f, 0xf0, 0x11, 0x22, 0x33, 0x44, 0x55, 0x66, 0x77, 0x88, 0x99, 0xaa,
        0xbb,
    ];
    let base = 0x1001usize;
    let p = BitPtr::<Msb0, u8>::new(base, BitIdx::new(5).unwrap(), 3 + 14 * 8 + 2).unwrap();
    let all = p.read_all(&mem);
    let (left, center, right) = p.align_to::<u32>();
    let first = left.read_all(&mem[left.pointer().value() - base..]);
    let last = right.read_all(&mem[right.pointer().value() - base..]);
    assert_eq!(first[..], all[..left.len()]);
    assert_eq!(last[..], all[left.len() + center.len()..]);
    assert_eq!(first.len() + center.len() + last.len(), all.len());
}
