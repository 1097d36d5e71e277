//! Frame-allocator behaviour: exhaustion, recycling, bulk allocation, and
//! the zero fill of freshly allocated frames.

use vmem::address::PhysPageNum;
use vmem::frame_allocator::{
    frame_alloc, frame_alloc_more, frame_dealloc, PhysMem, StackFrameAllocator,
};

#[test]
fn exactly_range_many_allocations_until_exhaustion() {
    let mut alloc = StackFrameAllocator::new();
    alloc.init(PhysPageNum(10), PhysPageNum(20));
    for i in 0..10 {
        let got = alloc.alloc_page();
        assert_eq!(got, Some(PhysPageNum(10 + i)));
    }
    assert_eq!(alloc.alloc_page(), None);
    assert_eq!(alloc.alloc_page(), None);
}

#[test]
fn freed_page_is_reused() {
    let mut alloc = StackFrameAllocator::new();
    alloc.init(PhysPageNum(5), PhysPageNum(8));
    let a = alloc.alloc_page().unwrap();
    let b = alloc.alloc_page().unwrap();
    let c = alloc.alloc_page().unwrap();
    assert_eq!(alloc.alloc_page(), None);
    alloc.dealloc(b);
    let again = alloc.alloc_page().unwrap();
    assert_eq!(again, b);
    assert_eq!(alloc.alloc_page(), None);
    let _ = (a, c);
}

#[test]
fn alloc_more_takes_descending_block() {
    let mut alloc = StackFrameAllocator::new();
    alloc.init(PhysPageNum(100), PhysPageNum(200));
    let block = alloc.alloc_more(4).unwrap();
    let nums: Vec<u64> = block.iter().map(|p| p.0).collect();
    assert_eq!(nums, vec![103, 102, 101, 100]);
}

#[test]
fn alloc_more_drains_pool_oldest_first() {
    let mut alloc = StackFrameAllocator::new();
    alloc.init(PhysPageNum(0), PhysPageNum(50));
    let mut taken = Vec::new();
    for _ in 0..5 {
        taken.push(alloc.alloc_page().unwrap());
    }
    // free pages 0, 1, 2 in that order: the pool drains oldest first
    alloc.dealloc(taken[0]);
    alloc.dealloc(taken[1]);
    alloc.dealloc(taken[2]);
    let block = alloc.alloc_more(3).unwrap();
    let nums: Vec<u64> = block.iter().map(|p| p.0).collect();
    assert_eq!(nums, vec![0, 1, 2]);
}

#[test]
fn alloc_more_fails_without_contiguous_room() {
    let mut alloc = StackFrameAllocator::new();
    alloc.init(PhysPageNum(0), PhysPageNum(4));
    assert!(alloc.alloc_more(5).is_none());
    assert!(alloc.alloc_more(4).is_some());
}

#[test]
fn free_count_tracks_allocations() {
    let mut alloc = StackFrameAllocator::new();
    alloc.init(PhysPageNum(0), PhysPageNum(3));
    assert_eq!(alloc.free_frames(), 3);
    let p = alloc.alloc_page().unwrap();
    assert_eq!(alloc.free_frames(), 2);
    alloc.dealloc(p);
    assert_eq!(alloc.free_frames(), 3);
}

#[test]
fn fresh_frames_are_zero_filled() {
    let mut mem = PhysMem::new(PhysPageNum(2), PhysPageNum(4));
    let ft = frame_alloc(&mut mem).unwrap();
    for off in [0usize, 1, 2047, 4095] {
        assert_eq!(mem.read_byte(ft.ppn, off), 0);
    }
}

#[test]
fn recycled_frames_reused_lifo_not_high_water() {
    // allocate 10 frames, free 3 of the middle ones, allocate 3 more: the
    // new allocations reuse exactly the freed page numbers, newest first,
    // and never extend the high-water mark
    let mut mem = PhysMem::new(PhysPageNum(0), PhysPageNum(16));
    let mut frames = Vec::new();
    for _ in 0..10 {
        frames.push(frame_alloc(&mut mem).unwrap());
    }
    for (i, f) in frames.iter().enumerate() {
        assert_eq!(f.ppn, PhysPageNum(i as u64));
    }
    frame_dealloc(&mut mem, PhysPageNum(4));
    frame_dealloc(&mut mem, PhysPageNum(5));
    frame_dealloc(&mut mem, PhysPageNum(6));
    let r1 = frame_alloc(&mut mem).unwrap();
    let r2 = frame_alloc(&mut mem).unwrap();
    let r3 = frame_alloc(&mut mem).unwrap();
    assert_eq!(r1.ppn, PhysPageNum(6));
    assert_eq!(r2.ppn, PhysPageNum(5));
    assert_eq!(r3.ppn, PhysPageNum(4));
    // the next allocation continues at the old high-water mark
    let next = frame_alloc(&mut mem).unwrap();
    assert_eq!(next.ppn, PhysPageNum(10));
}

#[test]
fn bulk_frames_are_distinct_and_zeroed() {
    let mut mem = PhysMem::new(PhysPageNum(0), PhysPageNum(8));
    let frames = frame_alloc_more(&mut mem, 3).unwrap();
    assert_eq!(frames.len(), 3);
    for i in 0..3 {
        for j in (i + 1)..3 {
            assert_ne!(frames[i].ppn, frames[j].ppn);
        }
        assert_eq!(mem.read_byte(frames[i].ppn, 100), 0);
    }
}

#[test]
fn arena_exhaustion_is_reported() {
    let mut mem = PhysMem::new(PhysPageNum(7), PhysPageNum(7));
    assert!(frame_alloc(&mut mem).is_none());
}
