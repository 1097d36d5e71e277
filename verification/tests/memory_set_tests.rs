//! Address-space behaviour: framed areas, data copying across page
//! boundaries, area removal, and the kernel space.

use vmem::address::{PhysPageNum, VirtAddr, VirtPageNum};
use vmem::config::{MEMORY_END, VPN_BOUND};
use vmem::frame_allocator::PhysMem;
use vmem::memory_set::{
    init, kernel_satp, KernelLayout, MapArea, MapPermission, MapType, MemorySet,
};
use vmem::page_table::{PageTable, SATP_MODE_SV39};

fn rw_perm() -> MapPermission {
    MapPermission { r: true, w: true, x: false, u: false }
}

fn sample_layout() -> KernelLayout {
    KernelLayout {
        stext: 0x8020_0000,
        etext: 0x8021_0000,
        srodata: 0x8021_0000,
        erodata: 0x8022_0000,
        sdata: 0x8022_0000,
        edata: 0x8023_0000,
        sbss_with_stack: 0x8023_0000,
        ebss: 0x8040_0000,
        ekernel: 0x8040_0000,
        strampoline: 0x8020_0000,
    }
}

#[test]
fn framed_area_resolves_to_distinct_pages() {
    let mut mem = PhysMem::new(PhysPageNum(0), PhysPageNum(64));
    let mut ms = MemorySet::new(&mut mem);
    ms.insert_framed_area(
        &mut mem,
        VirtAddr(0x10_0000),
        VirtAddr(0x10_4000),
        rw_perm(),
    );
    let mut seen = Vec::new();
    for vpn in 0x100..0x104u64 {
        let e = ms.translate(&mem, VirtPageNum(vpn)).unwrap();
        assert!(e.is_valid());
        let f = e.flags();
        assert!(f.r && f.w && !f.x && !f.u);
        assert!(!seen.contains(&e.ppn()));
        seen.push(e.ppn());
    }
}

#[test]
fn removed_area_stops_resolving() {
    let mut mem = PhysMem::new(PhysPageNum(0), PhysPageNum(64));
    let mut ms = MemorySet::new(&mut mem);
    let free_before = mem.free_frames();
    ms.insert_framed_area(
        &mut mem,
        VirtAddr(0x20_0000),
        VirtAddr(0x20_3000),
        rw_perm(),
    );
    assert!(ms.translate(&mem, VirtPageNum(0x200)).unwrap().is_valid());
    ms.remove_area_with_start_vpn(&mut mem, VirtPageNum(0x200));
    let after = ms.translate(&mem, VirtPageNum(0x200));
    assert!(after.is_none() || !after.unwrap().is_valid());
    // the data frames went back to the allocator; only node frames stay out
    assert!(mem.free_frames() >= free_before - 3);
}

#[test]
fn removing_an_unknown_start_changes_nothing() {
    let mut mem = PhysMem::new(PhysPageNum(0), PhysPageNum(32));
    let mut ms = MemorySet::new(&mut mem);
    ms.insert_framed_area(&mut mem, VirtAddr(0x1000), VirtAddr(0x2000), rw_perm());
    ms.remove_area_with_start_vpn(&mut mem, VirtPageNum(0x999));
    assert!(ms.translate(&mem, VirtPageNum(1)).unwrap().is_valid());
}

#[test]
fn copy_data_splits_across_page_boundary() {
    let mut mem = PhysMem::new(PhysPageNum(0), PhysPageNum(64));
    let mut ms = MemorySet::new(&mut mem);
    let mut data = Vec::new();
    for i in 0..4096 + 10 {
        data.push((i % 251) as u8);
    }
    let area = MapArea::new(
        VirtAddr(0x30_0000),
        VirtAddr(0x30_2000),
        MapType::Framed,
        rw_perm(),
    );
    ms.push(&mut mem, area, Some(&data));

    let page0 = ms.translate(&mem, VirtPageNum(0x300)).unwrap().ppn();
    let page1 = ms.translate(&mem, VirtPageNum(0x301)).unwrap().ppn();
    assert_ne!(page0, page1);
    // the first page holds the first 4096 bytes
    for off in [0usize, 1, 250, 4095] {
        assert_eq!(mem.read_byte(page0, off), (off % 251) as u8);
    }
    // the second page holds the remaining 10 bytes, zeros after them
    for off in 0..10usize {
        assert_eq!(mem.read_byte(page1, off), ((4096 + off) % 251) as u8);
    }
    assert_eq!(mem.read_byte(page1, 10), 0);
    assert_eq!(mem.read_byte(page1, 4095), 0);
}

#[test]
fn recycle_returns_data_frames() {
    let mut mem = PhysMem::new(PhysPageNum(0), PhysPageNum(64));
    let mut ms = MemorySet::new(&mut mem);
    let free_after_table = mem.free_frames();
    ms.insert_framed_area(&mut mem, VirtAddr(0), VirtAddr(0x4000), rw_perm());
    ms.insert_framed_area(&mut mem, VirtAddr(0x10000), VirtAddr(0x12000), rw_perm());
    assert!(mem.free_frames() < free_after_table);
    ms.recycle_data_pages(&mut mem);
    // the data frames are back; the table's node frames are retained
    assert!(mem.free_frames() >= free_after_table - 4);
    // the areas were dropped without unmapping: the table survives and its
    // leaf entries still read as before, now pointing at freed frames
    let after = ms.translate(&mem, VirtPageNum(0)).unwrap();
    assert!(after.is_valid());
}

#[test]
fn map_area_from_another_copies_bookkeeping_only() {
    let a = MapArea::new(VirtAddr(0x5000), VirtAddr(0x7000), MapType::Framed, rw_perm());
    let _b = MapArea::from_another(&a);
}

#[test]
fn kernel_space_trampoline_is_read_execute() {
    let layout = sample_layout();
    let mut mem = PhysMem::new(PhysPageNum(0x80400), PhysPageNum(0x88000));
    let ms = MemorySet::new_kernel(&mut mem, layout);

    let tramp_vpn = VirtPageNum(VPN_BOUND - 1);
    let e = ms.translate(&mem, tramp_vpn).unwrap();
    assert!(e.is_valid());
    let f = e.flags();
    assert!(f.r && f.x && !f.w);
    assert_eq!(e.ppn(), PhysPageNum(0x80200));
}

#[test]
fn kernel_space_sections_are_identity_mapped() {
    let layout = sample_layout();
    let mut mem = PhysMem::new(PhysPageNum(0x80400), PhysPageNum(0x88000));
    let ms = MemorySet::new_kernel(&mut mem, layout);

    // text: read and execute, never write
    let text = ms.translate(&mem, VirtPageNum(0x80200)).unwrap();
    assert_eq!(text.ppn(), PhysPageNum(0x80200));
    assert!(text.readable() && text.executable() && !text.writable());

    // read-only data: read only
    let ro = ms.translate(&mem, VirtPageNum(0x80210)).unwrap();
    assert_eq!(ro.ppn(), PhysPageNum(0x80210));
    assert!(ro.readable() && !ro.writable() && !ro.executable());

    // data and the free physical memory: read and write
    let data = ms.translate(&mem, VirtPageNum(0x80220)).unwrap();
    assert!(data.readable() && data.writable() && !data.executable());
    let ram = ms.translate(&mem, VirtPageNum(0x87fff)).unwrap();
    assert_eq!(ram.ppn(), PhysPageNum(0x87fff));
    assert!(ram.readable() && ram.writable() && !ram.executable());

    // nothing above the end of memory but the trampoline resolves
    assert!(ms.translate(&mem, VirtPageNum(0x90000)).is_none());
}

#[test]
fn boot_init_builds_arena_and_kernel_space() {
    let layout = sample_layout();
    let (mem, ms) = init(layout);
    let token = kernel_satp(&ms);
    assert_eq!(token & SATP_MODE_SV39, SATP_MODE_SV39);
    // the token selects the same translations through a borrowed view
    let view = PageTable::from_satp(token);
    let tramp = view.translate(&mem, VirtPageNum(VPN_BOUND - 1)).unwrap();
    assert!(tramp.is_valid() && tramp.readable() && tramp.executable());
    assert_eq!(MEMORY_END, 0x8800_0000);
}

#[test]
fn permission_bits_encode_hardware_positions() {
    let p = MapPermission { r: true, w: false, x: true, u: true };
    // bit 1 = Read, bit 3 = eXecute, bit 4 = User
    assert_eq!(p.bits(), 2 + 8 + 16);
    assert_eq!(MapPermission::empty().bits(), 0);
    let f = p.pte_flags();
    assert!(!f.v && f.r && !f.w && f.x && f.u);
}
