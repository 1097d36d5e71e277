//! Address-algebra behaviour: masking, page rounding, radix indices.

use vmem::address::{PhysAddr, PhysPageNum, SimpleRangeIterator, VirtAddr, VirtPageNum};

#[test]
fn ppn_round_trip() {
    let n = PhysPageNum(42);
    assert_eq!(PhysPageNum::from(u64::from(n)), PhysPageNum(42));
    let big = PhysPageNum(0x3ff_ffff_ffff);
    assert_eq!(PhysPageNum::from(u64::from(big)), big);
}

#[test]
fn ppn_construction_masks() {
    // only the low 42 bits of a raw word are significant
    assert_eq!(PhysPageNum::from(0x400_0000_0005), PhysPageNum(5));
}

#[test]
fn va_construction_masks() {
    // only the low 39 bits of a raw word are significant
    assert_eq!(VirtAddr::from(0x80_0000_0123), VirtAddr(0x123));
}

#[test]
fn va_widening_sign_extends() {
    // bit 38 set: the canonical form has all upper bits set
    let high = VirtAddr(0x40_0000_0000);
    assert_eq!(u64::from(high), 0xffff_ffc0_0000_0000);
    // bit 38 clear: widening changes nothing
    let low = VirtAddr(0x1234);
    assert_eq!(u64::from(low), 0x1234);
}

#[test]
fn floor_ceil_offset_aligned() {
    let a = VirtAddr(0x1000);
    assert_eq!(a.floor(), VirtPageNum(1));
    assert_eq!(a.ceil(), VirtPageNum(1));
    assert_eq!(a.page_offset(), 0);
    assert!(a.aligned());

    let b = VirtAddr(0x1001);
    assert_eq!(b.floor(), VirtPageNum(1));
    assert_eq!(b.ceil(), VirtPageNum(2));
    assert_eq!(b.page_offset(), 1);
    assert!(!b.aligned());

    let z = PhysAddr(0);
    assert_eq!(z.floor(), PhysPageNum(0));
    assert_eq!(z.ceil(), PhysPageNum(0));
    assert!(z.aligned());

    let one = PhysAddr(1);
    assert_eq!(one.floor(), PhysPageNum(0));
    assert_eq!(one.ceil(), PhysPageNum(1));
    assert!(!one.aligned());
}

#[test]
fn page_conversions() {
    assert_eq!(VirtAddr::from(VirtPageNum(3)), VirtAddr(0x3000));
    assert_eq!(VirtPageNum::from(VirtAddr(0x3fff)), VirtPageNum(3));
    assert_eq!(PhysAddr::from(PhysPageNum(7)), PhysAddr(0x7000));
    assert_eq!(PhysPageNum::from(PhysAddr(0x7001)), PhysPageNum(7));
}

#[test]
fn vpn_indices_decompose() {
    // vpn = i0 * 2^18 + i1 * 2^9 + i2
    let vpn = VirtPageNum(5 * 0x40000 + 17 * 512 + 511);
    let idx = vpn.indexes();
    assert_eq!(idx[0], 5);
    assert_eq!(idx[1], 17);
    assert_eq!(idx[2], 511);

    let zero = VirtPageNum(0);
    assert_eq!(zero.indexes(), [0, 0, 0]);
}

#[test]
fn range_iteration() {
    let mut it = SimpleRangeIterator::new(VirtPageNum(3), VirtPageNum(6));
    assert_eq!(it.next(), Some(VirtPageNum(3)));
    assert_eq!(it.next(), Some(VirtPageNum(4)));
    assert_eq!(it.next(), Some(VirtPageNum(5)));
    assert_eq!(it.next(), None);
}
