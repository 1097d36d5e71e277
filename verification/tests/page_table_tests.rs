//! Page-table behaviour: entry encoding, the three-level walk, and the
//! activation token.

use vmem::address::{PhysPageNum, VirtPageNum};
use vmem::frame_allocator::PhysMem;
use vmem::page_table::{PTEFlags, PageTable, PageTableEntry, SATP_MODE_SV39};

fn rwx_flags() -> PTEFlags {
    PTEFlags { r: true, w: true, x: true, ..PTEFlags::empty() }
}

#[test]
fn entry_encoding_is_bit_exact() {
    let flags = PTEFlags { v: true, r: true, w: false, x: true, ..PTEFlags::empty() };
    let pte = PageTableEntry::new(PhysPageNum(0x1234), flags);
    // ppn in bits [10, 52), flags in bits [0, 10): V=1, R=2, X=8
    assert_eq!(pte.0, 0x1234 * 1024 + 1 + 2 + 8);
    assert_eq!(pte.ppn(), PhysPageNum(0x1234));
    assert_eq!(pte.flags(), flags);
    assert!(pte.is_valid());
    assert!(pte.readable());
    assert!(!pte.writable());
    assert!(pte.executable());
}

#[test]
fn empty_entry_is_invalid() {
    let e = PageTableEntry::empty();
    assert_eq!(e.0, 0);
    assert!(!e.is_valid());
    assert!(!e.readable());
    assert!(!e.writable());
    assert!(!e.executable());
}

#[test]
fn flag_bits_round_trip() {
    let f = PTEFlags { v: true, u: true, d: true, ..PTEFlags::empty() };
    let bits = f.bits();
    assert_eq!(bits, 1 + 16 + 128);
    assert_eq!(PTEFlags::from_bits(bits), Some(f));
    assert_eq!(PTEFlags::from_bits(1024), None);
}

#[test]
fn map_then_translate_yields_entry() {
    let mut mem = PhysMem::new(PhysPageNum(100), PhysPageNum(164));
    let mut pt = PageTable::new(&mut mem);
    let vpn = VirtPageNum(0x12345);
    let ppn = PhysPageNum(0x77);

    // before the map nothing resolves
    assert!(pt.translate(&mem, vpn).is_none());

    pt.map(&mut mem, vpn, ppn, rwx_flags());
    let e = pt.translate(&mem, vpn).unwrap();
    assert_eq!(e.ppn(), ppn);
    assert!(e.is_valid());
    // the Valid bit is forced on over the given flags
    let mut expected = rwx_flags();
    expected.v = true;
    assert_eq!(e.flags(), expected);

    // unrelated pages still do not resolve
    assert!(pt.translate(&mem, VirtPageNum(0x54321)).is_none());
}

#[test]
fn unmap_clears_translation() {
    let mut mem = PhysMem::new(PhysPageNum(10), PhysPageNum(80));
    let mut pt = PageTable::new(&mut mem);
    let vpn = VirtPageNum(99);
    pt.map(&mut mem, vpn, PhysPageNum(55), rwx_flags());
    assert!(pt.translate(&mem, vpn).unwrap().is_valid());
    pt.unmap(&mut mem, vpn);
    // the walk still reaches the leaf slot, but it no longer holds a
    // valid translation
    let after = pt.translate(&mem, vpn).unwrap();
    assert!(!after.is_valid());
}

#[test]
fn two_mappings_in_one_leaf_node() {
    let mut mem = PhysMem::new(PhysPageNum(0), PhysPageNum(64));
    let mut pt = PageTable::new(&mut mem);
    pt.map(&mut mem, VirtPageNum(8), PhysPageNum(1), rwx_flags());
    pt.map(&mut mem, VirtPageNum(9), PhysPageNum(2), rwx_flags());
    assert_eq!(pt.translate(&mem, VirtPageNum(8)).unwrap().ppn(), PhysPageNum(1));
    assert_eq!(pt.translate(&mem, VirtPageNum(9)).unwrap().ppn(), PhysPageNum(2));
    pt.unmap(&mut mem, VirtPageNum(8));
    assert!(!pt.translate(&mem, VirtPageNum(8)).unwrap().is_valid());
    assert_eq!(pt.translate(&mem, VirtPageNum(9)).unwrap().ppn(), PhysPageNum(2));
}

#[test]
fn satp_token_selects_the_same_table() {
    let mut mem = PhysMem::new(PhysPageNum(40), PhysPageNum(104));
    let mut pt = PageTable::new(&mut mem);
    let vpn = VirtPageNum(0x101);
    pt.map(&mut mem, vpn, PhysPageNum(0x42), rwx_flags());

    let token = pt.satp();
    // the mode tag occupies the top four bits
    assert_eq!(token & SATP_MODE_SV39, SATP_MODE_SV39);

    // a borrowed view reconstructed from the token sees the same
    // translations
    let view = PageTable::from_satp(token);
    let e = view.translate(&mem, vpn).unwrap();
    assert_eq!(e.ppn(), PhysPageNum(0x42));
    assert!(view.translate(&mem, VirtPageNum(0x202)).is_none());
}
