//! Physical-frame management: the stack-style frame allocator, the frame
//! arena that models the contents of physical pages, and frame trackers
//! that own one allocated page each.
//!
//! The allocator hands out page numbers from a contiguous range `[l, r)`
//! and keeps freed pages in a recycling pool reused last-in first-out.
//! The arena ([`PhysMem`]) is the one place that converts a physical page
//! number into a bounds-checked view of the frame's contents; the page
//! table and the byte-copy paths go through it instead of reinterpreting
//! raw memory.

use vstd::prelude::*;

use crate::address::{PhysAddr, PhysPageNum};
use crate::config::{MEMORY_END, PA_BOUND, PPN_BOUND};
use crate::page_table::PageTableEntry;

verus! {

/// A stack-style allocator over the physical page numbers `[l, r)`:
/// O(1) single allocation, bulk allocation, and recycle-on-free.
pub struct StackFrameAllocator {
    start: u64,
    current: u64,
    end: u64,
    recycled: Vec<u64>,
}

impl StackFrameAllocator {
    /// The inclusive lower bound of the managed range: pages below it are
    /// never handed out and must never be freed.
    pub closed spec fn low(self) -> u64 {
        self.start
    }

    /// The next never-handed-out page number.
    pub closed spec fn cur(self) -> u64 {
        self.current
    }

    /// The exclusive upper bound of the managed range.
    pub closed spec fn top(self) -> u64 {
        self.end
    }

    /// The pool of freed page numbers, oldest first.
    pub closed spec fn pool(self) -> Seq<u64> {
        self.recycled@
    }

    /// The allocator's internal consistency: the pool holds distinct
    /// page numbers below the high-water mark.
    pub open spec fn wf(self) -> bool {
        &&& self.low() <= self.cur() <= self.top() <= PPN_BOUND
        &&& forall|i: int|
            0 <= i < self.pool().len() ==> self.low() <= #[trigger] self.pool()[i] < self.cur()
        &&& forall|i: int, j: int|
            0 <= i < j < self.pool().len() ==> #[trigger] self.pool()[i] != #[trigger] self.pool()[j]
    }

    /// How many successful single allocations remain before exhaustion.
    pub open spec fn free_count(self) -> int {
        self.pool().len() + self.top() - self.cur()
    }

    /// Whether page `p` is currently handed out: it has been allocated at
    /// some point and not freed since.
    pub open spec fn live(self, p: u64) -> bool {
        p < self.cur() && !self.pool().contains(p)
    }

    /// A fresh allocator managing the empty range.
    pub fn new() -> (a: StackFrameAllocator)
        ensures
            a.wf(),
            a.low() == 0 && a.cur() == 0 && a.top() == 0 && a.pool() == Seq::<u64>::empty(),
    {
        StackFrameAllocator { start: 0, current: 0, end: 0, recycled: Vec::new() }
    }

    /// Binds the managed range to `[l, r)`.
    pub fn init(&mut self, l: PhysPageNum, r: PhysPageNum)
        requires
            old(self).pool().len() == 0,
            l.0 <= r.0 <= PPN_BOUND,
        ensures
            final(self).wf(),
            final(self).low() == l.0,
            final(self).cur() == l.0,
            final(self).top() == r.0,
            final(self).pool() == Seq::<u64>::empty(),
            final(self).free_count() == r.0 - l.0,
    {
        self.start = l.0;
        self.current = l.0;
        self.end = r.0;
        proof {
            assert(self.recycled@ =~= Seq::<u64>::empty());
        }
    }

    /// Pops a page from the recycling pool, or advances the high-water
    /// mark; reports exhaustion once neither is possible.
    pub fn alloc_page(&mut self) -> (r: Option<PhysPageNum>)
        requires
            old(self).wf(),
        ensures
            final(self).wf(),
            final(self).low() == old(self).low(),
            final(self).top() == old(self).top(),
            match r {
                Some(p) => {
                    &&& if old(self).pool().len() > 0 {
                        &&& p.0 == old(self).pool().last()
                        &&& final(self).pool() == old(self).pool().drop_last()
                        &&& final(self).cur() == old(self).cur()
                    } else {
                        &&& old(self).cur() < old(self).top()
                        &&& p.0 == old(self).cur()
                        &&& final(self).cur() == old(self).cur() + 1
                        &&& final(self).pool() == old(self).pool()
                    }
                    &&& p.0 < old(self).top()
                    &&& !old(self).live(p.0)
                    &&& final(self).live(p.0)
                    &&& final(self).free_count() == old(self).free_count() - 1
                    &&& forall|q: u64| old(self).live(q) ==> final(self).live(q)
                    &&& forall|q: u64|
                        final(self).live(q) ==> old(self).live(q) || q == p.0
                },
                None => {
                    &&& old(self).free_count() == 0
                    &&& final(self).cur() == old(self).cur()
                    &&& final(self).pool() == old(self).pool()
                },
            },
    {
        if let Some(ppn) = self.recycled.pop() {
            proof {
                let p0 = old(self).pool();
                let p1 = self.pool();
                assert(p1 == p0.drop_last());
                assert(p0[p0.len() - 1] == ppn);
                assert forall|i: int| 0 <= i < p1.len() implies #[trigger] p1[i] < self.cur() by {
                    assert(p0[i] == p1[i]);
                }
                assert forall|i: int, j: int|
                    0 <= i < j < p1.len() implies #[trigger] p1[i] != #[trigger] p1[j] by {
                    assert(p0[i] == p1[i] && p0[j] == p1[j]);
                }
                assert(!p1.contains(ppn)) by {
                    if p1.contains(ppn) {
                        let i = choose|i: int| 0 <= i < p1.len() && p1[i] == ppn;
                        assert(p0[i] == ppn);
                    }
                }
                assert forall|q: u64| old(self).live(q) implies self.live(q) by {
                    if p1.contains(q) {
                        let i = choose|i: int| 0 <= i < p1.len() && p1[i] == q;
                        assert(p0[i] == q);
                    }
                }
                assert forall|q: u64| self.live(q) && q != ppn implies old(self).live(q) by {
                    if p0.contains(q) {
                        let i = choose|i: int| 0 <= i < p0.len() && p0[i] == q;
                        if i < p0.len() - 1 {
                            assert(p1[i] == q);
                        }
                    }
                }
            }
            Some(PhysPageNum(ppn))
        } else if self.current == self.end {
            None
        } else {
            self.current = self.current + 1;
            Some(PhysPageNum(self.current - 1))
        }
    }

    /// What a successful bulk allocation of `pages` frames guarantees:
    /// either the oldest pool entries were drained or a contiguous block
    /// was taken in descending order, and either way the pages handed out
    /// are distinct, were not live before, and are live afterwards.
    pub open spec fn alloc_more_post(
        a0: StackFrameAllocator,
        a1: StackFrameAllocator,
        v: Seq<PhysPageNum>,
        pages: usize,
    ) -> bool {
        &&& v.len() == pages
        &&& if a0.pool().len() >= pages {
            &&& forall|i: int| 0 <= i < pages ==> (#[trigger] v[i]).0 == a0.pool()[i]
            &&& a1.pool() == a0.pool().skip(pages as int)
            &&& a1.cur() == a0.cur()
        } else {
            &&& a0.top() - a0.cur() >= pages
            &&& forall|i: int| 0 <= i < pages ==> (#[trigger] v[i]).0 == a0.cur() + pages - 1 - i
            &&& a1.pool() == a0.pool()
            &&& a1.cur() == a0.cur() + pages
        }
        &&& forall|i: int, j: int|
            0 <= i < j < pages ==> (#[trigger] v[i]).0 != (#[trigger] v[j]).0
        &&& forall|i: int| 0 <= i < pages ==> !a0.live((#[trigger] v[i]).0)
        &&& forall|i: int| 0 <= i < pages ==> a1.live((#[trigger] v[i]).0)
        &&& forall|i: int| 0 <= i < pages ==> (#[trigger] v[i]).0 < a0.top()
        &&& a1.free_count() == a0.free_count() - pages
        &&& forall|q: u64| a0.live(q) ==> a1.live(q)
        &&& forall|q: u64|
            a1.live(q) ==> a0.live(q) || exists|i: int| 0 <= i < pages && (#[trigger] v[i]).0 == q
    }

    /// Bulk allocation of `pages` frames, all or nothing: drains the oldest
    /// `pages` entries of the recycling pool when it is deep enough, else
    /// takes a contiguous block below the high-water mark and returns it in
    /// descending page-number order; callers must not rely on the order.
    #[verifier::rlimit(100)]
    pub fn alloc_more(&mut self, pages: usize) -> (r: Option<Vec<PhysPageNum>>)
        requires
            old(self).wf(),
        ensures
            final(self).wf(),
            final(self).low() == old(self).low(),
            final(self).top() == old(self).top(),
            match r {
                Some(v) => StackFrameAllocator::alloc_more_post(
                    *old(self),
                    *final(self),
                    v@,
                    pages,
                ),
                None => {
                    &&& old(self).pool().len() < pages
                    &&& old(self).top() - old(self).cur() < pages
                    &&& final(self).cur() == old(self).cur()
                    &&& final(self).pool() == old(self).pool()
                },
            },
    {
        if self.recycled.len() >= pages {
            let ghost pool0 = self.recycled@;
            let mut v: Vec<PhysPageNum> = Vec::new();
            let mut k: usize = 0;
            while k < pages
                invariant
                    k <= pages <= pool0.len(),
                    self.recycled@ == pool0.skip(k as int),
                    self.start == old(self).low(),
                    self.current == old(self).cur() && self.end == old(self).top(),
                    v@.len() == k,
                    forall|i: int| 0 <= i < k ==> (#[trigger] v@[i]).0 == pool0[i],
                decreases pages - k,
            {
                let p = self.recycled.remove(0);
                proof {
                    assert(self.recycled@ =~= pool0.skip(k + 1));
                    assert(p == pool0[k as int]);
                }
                v.push(PhysPageNum(p));
                k = k + 1;
            }
            proof {
                lemma_alloc_more_pool_post(*old(self), *self, v@, pages);
            }
            Some(v)
        } else if (pages as u64) <= self.end - self.current {
            let start = self.current;
            self.current = self.current + pages as u64;
            let mut v: Vec<PhysPageNum> = Vec::new();
            let mut k: usize = 0;
            while k < pages
                invariant
                    k <= pages,
                    self.start == old(self).low(),
                    self.end == old(self).top(),
                    self.recycled@ == old(self).pool(),
                    self.current == start + pages,
                    start == old(self).cur(),
                    start + pages <= old(self).top() <= PPN_BOUND,
                    v@.len() == k,
                    forall|i: int|
                        0 <= i < k ==> (#[trigger] v@[i]).0 == start + pages - 1 - i,
                decreases pages - k,
            {
                v.push(PhysPageNum(self.current - 1 - k as u64));
                k = k + 1;
            }
            proof {
                lemma_alloc_more_bump_post(*old(self), *self, v@, pages);
            }
            Some(v)
        } else {
            None
        }
    }

    /// Returns a page to the recycling pool. Freeing a page that was never
    /// handed out, or freeing one twice, is a fatal programming error; the
    /// contract rules both out.
    pub fn dealloc(&mut self, ppn: PhysPageNum)
        requires
            old(self).wf(),
            old(self).low() <= ppn.0 < old(self).cur(),
            !old(self).pool().contains(ppn.0),
        ensures
            final(self).wf(),
            final(self).low() == old(self).low(),
            final(self).cur() == old(self).cur(),
            final(self).top() == old(self).top(),
            final(self).pool() == old(self).pool().push(ppn.0),
            final(self).free_count() == old(self).free_count() + 1,
            forall|q: u64| final(self).live(q) == (old(self).live(q) && q != ppn.0),
    {
        self.recycled.push(ppn.0);
        proof {
            let p0 = old(self).pool();
            let p1 = self.pool();
            assert(p1 == p0.push(ppn.0));
            assert(p1[p0.len() as int] == ppn.0);
            assert(p1.contains(ppn.0));
            assert forall|i: int, j: int|
                0 <= i < j < p1.len() implies #[trigger] p1[i] != #[trigger] p1[j] by {
                if j < p0.len() {
                    assert(p0[i] == p1[i] && p0[j] == p1[j]);
                } else {
                    assert(p1[j] == ppn.0);
                    assert(p0[i] == p1[i]);
                    if p1[i] == ppn.0 {
                        assert(p0.contains(ppn.0));
                    }
                }
            }
            assert forall|q: u64| self.live(q) implies old(self).live(q) && q != ppn.0 by {
                if p0.contains(q) {
                    let i = choose|i: int| 0 <= i < p0.len() && p0[i] == q;
                    assert(p1[i] == q);
                }
            }
            assert forall|q: u64| old(self).live(q) && q != ppn.0 implies self.live(q) by {
                if p1.contains(q) {
                    let i = choose|i: int| 0 <= i < p1.len() && p1[i] == q;
                    if i < p0.len() {
                        assert(p0[i] == q);
                    }
                }
            }
        }
    }

    /// How many successful single allocations remain before exhaustion.
    pub fn free_frames(&self) -> (n: u64)
        requires
            self.wf(),
            self.pool().len() + self.top() - self.cur() <= u64::MAX,
        ensures
            n == self.free_count(),
    {
        self.recycled.len() as u64 + (self.end - self.current)
    }
}

/// The pool-drain case of bulk allocation keeps the allocator well formed
/// and hands out exactly the drained pages.
proof fn lemma_alloc_more_pool_post(
    a0: StackFrameAllocator,
    a1: StackFrameAllocator,
    v: Seq<PhysPageNum>,
    pages: usize,
)
    requires
        a0.wf(),
        pages <= a0.pool().len(),
        a1.low() == a0.low(),
        a1.cur() == a0.cur(),
        a1.top() == a0.top(),
        a1.pool() == a0.pool().skip(pages as int),
        v.len() == pages,
        forall|i: int| 0 <= i < pages ==> (#[trigger] v[i]).0 == a0.pool()[i],
    ensures
        a1.wf(),
        StackFrameAllocator::alloc_more_post(a0, a1, v, pages),
{
    assert forall|i: int|
        0 <= i < a1.pool().len() implies a1.low() <= #[trigger] a1.pool()[i] < a1.cur() by {
        assert(a1.pool()[i] == a0.pool()[i + pages]);
    }
    assert forall|i: int, j: int|
        0 <= i < j < a1.pool().len() implies #[trigger] a1.pool()[i] != #[trigger] a1.pool()[j] by {
        assert(a1.pool()[i] == a0.pool()[i + pages]);
        assert(a1.pool()[j] == a0.pool()[j + pages]);
    }
    assert forall|i: int|
        0 <= i < pages implies !a0.live((#[trigger] v[i]).0) && a1.live(v[i].0) && v[i].0
        < a0.top() by {
        assert(a0.pool().contains(v[i].0));
        assert(!a1.pool().contains(v[i].0)) by {
            if a1.pool().contains(v[i].0) {
                let j = choose|j: int| 0 <= j < a1.pool().len() && a1.pool()[j] == v[i].0;
                assert(a0.pool()[j + pages] == v[i].0);
                assert(a0.pool()[i] == v[i].0);
            }
        }
    }
    assert forall|q: u64| a0.live(q) implies a1.live(q) by {
        if a1.pool().contains(q) {
            let j = choose|j: int| 0 <= j < a1.pool().len() && a1.pool()[j] == q;
            assert(a0.pool()[j + pages] == q);
        }
    }
    assert forall|q: u64|
        a1.live(q) && !a0.live(q) implies exists|i: int|
        0 <= i < pages && (#[trigger] v[i]).0 == q by {
        assert(a0.pool().contains(q));
        let j = choose|j: int| 0 <= j < a0.pool().len() && a0.pool()[j] == q;
        if j < pages {
            assert(v[j].0 == q);
        } else {
            assert(a1.pool()[j - pages] == q);
        }
    }
}

/// The contiguous-block case of bulk allocation keeps the allocator well
/// formed and hands out exactly the new block.
proof fn lemma_alloc_more_bump_post(
    a0: StackFrameAllocator,
    a1: StackFrameAllocator,
    v: Seq<PhysPageNum>,
    pages: usize,
)
    requires
        a0.wf(),
        a0.pool().len() < pages,
        a0.cur() + pages <= a0.top(),
        a1.low() == a0.low(),
        a1.cur() == a0.cur() + pages,
        a1.top() == a0.top(),
        a1.pool() == a0.pool(),
        v.len() == pages,
        forall|i: int| 0 <= i < pages ==> (#[trigger] v[i]).0 == a0.cur() + pages - 1 - i,
    ensures
        a1.wf(),
        StackFrameAllocator::alloc_more_post(a0, a1, v, pages),
{
    assert forall|i: int|
        0 <= i < pages implies !a0.live((#[trigger] v[i]).0) && a1.live(v[i].0) && v[i].0
        < a0.top() by {
        assert(v[i].0 >= a0.cur());
        assert(!a1.pool().contains(v[i].0)) by {
            if a1.pool().contains(v[i].0) {
                let j = choose|j: int| 0 <= j < a1.pool().len() && a1.pool()[j] == v[i].0;
                assert(a0.pool()[j] < a0.cur());
            }
        }
    }
    assert forall|q: u64| a1.live(q) && !a0.live(q) implies exists|i: int|
        0 <= i < pages && (#[trigger] v[i]).0 == q by {
        assert(a0.cur() <= q < a0.cur() + pages);
        let i = a0.cur() + pages - 1 - q;
        assert(v[i as int].0 == q);
    }
}

/// The contents of one physical frame as the kernel currently uses it:
/// untouched, a page-table node of 512 entries, or a data frame of 4096
/// bytes.
pub enum FrameData {
    Raw,
    Table(Vec<PageTableEntry>),
    Bytes(Vec<u8>),
}

/// The mathematical view of one frame's contents.
pub ghost enum FrameView {
    Raw,
    Table(Seq<PageTableEntry>),
    Bytes(Seq<u8>),
}

impl FrameData {
    /// The mathematical view of this frame's contents.
    pub open spec fn fview(self) -> FrameView {
        match self {
            FrameData::Raw => FrameView::Raw,
            FrameData::Table(t) => FrameView::Table(t@),
            FrameData::Bytes(b) => FrameView::Bytes(b@),
        }
    }
}

/// Writes `x` into slot `i` of a vector.
fn vec_set<T>(v: &mut Vec<T>, i: usize, x: T)
    requires
        i < old(v).len(),
    ensures
        final(v)@ == old(v)@.update(i as int, x),
{
    let slot = &mut v[i];
    *slot = x;
}

/// The arena of physical frames: the frame allocator together with the
/// contents of every frame in its range. It is the one capability that
/// turns a physical page number into a bounds-checked view of the frame,
/// standing in for the kernel's identity mapping of physical memory.
pub struct PhysMem {
    allocator: StackFrameAllocator,
    base: u64,
    frames: Vec<FrameData>,
}

impl PhysMem {
    /// The first page number of the arena.
    pub closed spec fn first(self) -> u64 {
        self.base
    }

    /// How many pages the arena covers.
    pub closed spec fn frames_len(self) -> int {
        self.frames@.len() as int
    }

    /// The view of the frame holding page `p`.
    pub closed spec fn fview(self, p: u64) -> FrameView {
        self.frames@[p - self.base].fview()
    }

    /// The embedded allocator.
    pub closed spec fn alloc_state(self) -> StackFrameAllocator {
        self.allocator
    }

    /// Whether page `p` lies in the arena.
    pub open spec fn in_range(self, p: u64) -> bool {
        self.first() <= p && p - self.first() < self.frames_len()
    }

    /// Whether page `p` currently holds a page-table node.
    pub open spec fn is_table(self, p: u64) -> bool {
        self.in_range(p) && (self.fview(p) matches FrameView::Table(t) && t.len() == 512)
    }

    /// The entries of the page-table node held in page `p`.
    pub open spec fn table_at(self, p: u64) -> Seq<PageTableEntry> {
        self.fview(p)->Table_0
    }

    /// Whether page `p` currently holds a data frame.
    pub open spec fn is_bytes(self, p: u64) -> bool {
        self.in_range(p) && (self.fview(p) matches FrameView::Bytes(b) && b.len() == 4096)
    }

    /// The bytes of the data frame held in page `p`.
    pub open spec fn bytes_at(self, p: u64) -> Seq<u8> {
        self.fview(p)->Bytes_0
    }

    /// Whether page `p` is currently handed out by the allocator.
    pub open spec fn live(self, p: u64) -> bool {
        self.in_range(p) && self.alloc_state().live(p)
    }

    /// How many successful single allocations remain.
    pub open spec fn free_count(self) -> int {
        self.alloc_state().free_count()
    }

    /// The arena's internal consistency: the allocator is well formed, its
    /// range is exactly the pages the arena stores contents for, and every
    /// pooled page lies in that range.
    pub open spec fn wf(self) -> bool {
        &&& self.alloc_state().wf()
        &&& self.alloc_state().low() == self.first()
        &&& self.alloc_state().top() == self.first() + self.frames_len()
    }

    /// A fresh arena over the page range `[l, r)`: nothing allocated,
    /// every frame untouched.
    pub fn new(l: PhysPageNum, r: PhysPageNum) -> (m: PhysMem)
        requires
            l.0 <= r.0 <= PPN_BOUND,
            r.0 - l.0 <= usize::MAX,
        ensures
            m.wf(),
            m.first() == l.0,
            m.alloc_state().cur() == l.0,
            m.alloc_state().top() == r.0,
            m.alloc_state().pool() == Seq::<u64>::empty(),
            m.free_count() == r.0 - l.0,
            forall|q: u64| m.in_range(q) ==> m.fview(q) == FrameView::Raw,
            forall|q: u64| !m.live(q),
    {
        let mut allocator = StackFrameAllocator::new();
        allocator.init(l, r);
        let count = (r.0 - l.0) as usize;
        let mut frames: Vec<FrameData> = Vec::new();
        let mut k: usize = 0;
        while k < count
            invariant
                k <= count,
                frames@.len() == k,
                forall|i: int| 0 <= i < k ==> (#[trigger] frames@[i]).fview() == FrameView::Raw,
            decreases count - k,
        {
            frames.push(FrameData::Raw);
            k = k + 1;
        }
        PhysMem { allocator, base: l.0, frames }
    }

    /// The slot of page `ppn` in the frame store.
    fn frame_index(&self, ppn: PhysPageNum) -> (i: usize)
        requires
            self.in_range(ppn.0),
        ensures
            i == ppn.0 - self.first(),
    {
        let n = self.frames.len();
        proof {
            assert(ppn.0 - self.base < n);
        }
        (ppn.0 - self.base) as usize
    }

    /// Replaces the frame at `p` with an all-zero page-table node, the
    /// explicit form of zero-filling a page and reading it as a table.
    pub fn set_table(&mut self, ppn: PhysPageNum)
        requires
            old(self).wf(),
            old(self).in_range(ppn.0),
        ensures
            final(self).wf(),
            same_extent(*old(self), *final(self)),
            final(self).alloc_state() == old(self).alloc_state(),
            final(self).is_table(ppn.0),
            final(self).table_at(ppn.0) == Seq::new(512, |i: int| PageTableEntry(0)),
            frames_unchanged_except(*old(self), *final(self), ppn.0),
    {
        let mut t: Vec<PageTableEntry> = Vec::new();
        let mut k: usize = 0;
        while k < 512
            invariant
                k <= 512,
                t@.len() == k,
                forall|j: int| 0 <= j < k ==> t@[j] == PageTableEntry(0),
            decreases 512 - k,
        {
            t.push(PageTableEntry::empty());
            k = k + 1;
        }
        let i = self.frame_index(ppn);
        vec_set(&mut self.frames, i, FrameData::Table(t));
        proof {
            assert(self.table_at(ppn.0) =~= Seq::new(512, |j: int| PageTableEntry(0)));
        }
    }

    /// The entry at slot `idx` of the page-table node in page `ppn`.
    pub fn read_pte(&self, ppn: PhysPageNum, idx: usize) -> (r: PageTableEntry)
        requires
            self.wf(),
            self.is_table(ppn.0),
            idx < 512,
        ensures
            r == self.table_at(ppn.0)[idx as int],
    {
        let i = self.frame_index(ppn);
        match &self.frames[i] {
            FrameData::Table(t) => t[idx],
            _ => {
                proof {
                    assert(false);
                }
                PageTableEntry::empty()
            },
        }
    }

    /// Overwrites the entry at slot `idx` of the page-table node in `ppn`.
    pub fn write_pte(&mut self, ppn: PhysPageNum, idx: usize, pte: PageTableEntry)
        requires
            old(self).wf(),
            old(self).is_table(ppn.0),
            idx < 512,
        ensures
            final(self).wf(),
            same_extent(*old(self), *final(self)),
            final(self).alloc_state() == old(self).alloc_state(),
            final(self).is_table(ppn.0),
            final(self).table_at(ppn.0) == old(self).table_at(ppn.0).update(idx as int, pte),
            frames_unchanged_except(*old(self), *final(self), ppn.0),
    {
        let i = self.frame_index(ppn);
        let slot = &mut self.frames[i];
        match slot {
            FrameData::Table(t) => {
                vec_set(t, idx, pte);
            },
            _ => {
                proof {
                    assert(false);
                }
            },
        }
    }

    /// Replaces the frame at `p` with an all-zero data frame: the zero fill
    /// performed whenever a frame is handed out.
    pub fn set_zero_bytes(&mut self, ppn: PhysPageNum)
        requires
            old(self).wf(),
            old(self).in_range(ppn.0),
        ensures
            final(self).wf(),
            same_extent(*old(self), *final(self)),
            final(self).alloc_state() == old(self).alloc_state(),
            final(self).is_bytes(ppn.0),
            final(self).bytes_at(ppn.0) == Seq::new(4096, |i: int| 0u8),
            frames_unchanged_except(*old(self), *final(self), ppn.0),
    {
        let mut b: Vec<u8> = Vec::new();
        let mut k: usize = 0;
        while k < 4096
            invariant
                k <= 4096,
                b@.len() == k,
                forall|j: int| 0 <= j < k ==> b@[j] == 0u8,
            decreases 4096 - k,
        {
            b.push(0u8);
            k = k + 1;
        }
        let i = self.frame_index(ppn);
        vec_set(&mut self.frames, i, FrameData::Bytes(b));
        proof {
            assert(self.bytes_at(ppn.0) =~= Seq::new(4096, |j: int| 0u8));
        }
    }

    /// The byte at offset `off` of the data frame in page `ppn`.
    pub fn read_byte(&self, ppn: PhysPageNum, off: usize) -> (r: u8)
        requires
            self.wf(),
            self.is_bytes(ppn.0),
            off < 4096,
        ensures
            r == self.bytes_at(ppn.0)[off as int],
    {
        let i = self.frame_index(ppn);
        match &self.frames[i] {
            FrameData::Bytes(b) => b[off],
            _ => {
                proof {
                    assert(false);
                }
                0
            },
        }
    }

    /// Overwrites the byte at offset `off` of the data frame in page `ppn`.
    pub fn write_byte(&mut self, ppn: PhysPageNum, off: usize, val: u8)
        requires
            old(self).wf(),
            old(self).is_bytes(ppn.0),
            off < 4096,
        ensures
            final(self).wf(),
            same_extent(*old(self), *final(self)),
            final(self).alloc_state() == old(self).alloc_state(),
            final(self).is_bytes(ppn.0),
            final(self).bytes_at(ppn.0) == old(self).bytes_at(ppn.0).update(off as int, val),
            frames_unchanged_except(*old(self), *final(self), ppn.0),
    {
        let i = self.frame_index(ppn);
        let slot = &mut self.frames[i];
        match slot {
            FrameData::Bytes(b) => {
                vec_set(b, off, val);
            },
            _ => {
                proof {
                    assert(false);
                }
            },
        }
    }

    /// How many successful single allocations remain.
    pub fn free_frames(&self) -> (n: u64)
        requires
            self.wf(),
            self.free_count() <= u64::MAX,
        ensures
            n == self.free_count(),
    {
        self.allocator.free_frames()
    }
}

/// The two arenas cover the same page range.
pub open spec fn same_extent(m0: PhysMem, m1: PhysMem) -> bool {
    m1.first() == m0.first() && m1.frames_len() == m0.frames_len()
}

/// Every frame but the one at `p` reads the same in both arenas.
pub open spec fn frames_unchanged_except(m0: PhysMem, m1: PhysMem, p: u64) -> bool {
    forall|q: u64| m0.in_range(q) && q != p ==> m1.fview(q) == m0.fview(q)
}

/// Every frame reads the same in both arenas.
pub open spec fn frames_unchanged(m0: PhysMem, m1: PhysMem) -> bool {
    forall|q: u64| m0.in_range(q) ==> m1.fview(q) == m0.fview(q)
}

/// The sole owner of one allocated physical frame. Constructing one
/// zero-fills the frame; `frame_dealloc` returns the page to the allocator
/// when an owner drops it.
pub struct FrameTracker {
    pub ppn: PhysPageNum,
}

impl FrameTracker {
    /// Takes ownership of page `ppn` and zero-fills it.
    pub fn new(ppn: PhysPageNum, mem: &mut PhysMem) -> (ft: FrameTracker)
        requires
            old(mem).wf(),
            old(mem).in_range(ppn.0),
        ensures
            ft.ppn == ppn,
            final(mem).wf(),
            same_extent(*old(mem), *final(mem)),
            final(mem).alloc_state() == old(mem).alloc_state(),
            final(mem).is_bytes(ppn.0),
            final(mem).bytes_at(ppn.0) == Seq::new(4096, |i: int| 0u8),
            frames_unchanged_except(*old(mem), *final(mem), ppn.0),
    {
        mem.set_zero_bytes(ppn);
        FrameTracker { ppn }
    }
}

/// Allocates one frame, zero-filled, and hands back its owning tracker;
/// reports exhaustion with an empty result. Reuses the most recently freed
/// page first.
pub fn frame_alloc(mem: &mut PhysMem) -> (r: Option<FrameTracker>)
    requires
        old(mem).wf(),
    ensures
        final(mem).wf(),
        same_extent(*old(mem), *final(mem)),
        final(mem).alloc_state().top() == old(mem).alloc_state().top(),
        match r {
            Some(ft) => {
                &&& if old(mem).alloc_state().pool().len() > 0 {
                    &&& ft.ppn.0 == old(mem).alloc_state().pool().last()
                    &&& final(mem).alloc_state().pool() == old(mem).alloc_state().pool().drop_last()
                    &&& final(mem).alloc_state().cur() == old(mem).alloc_state().cur()
                } else {
                    &&& ft.ppn.0 == old(mem).alloc_state().cur()
                    &&& final(mem).alloc_state().cur() == old(mem).alloc_state().cur() + 1
                    &&& final(mem).alloc_state().pool() == old(mem).alloc_state().pool()
                }
                &&& old(mem).in_range(ft.ppn.0)
                &&& !old(mem).live(ft.ppn.0)
                &&& final(mem).live(ft.ppn.0)
                &&& final(mem).is_bytes(ft.ppn.0)
                &&& final(mem).bytes_at(ft.ppn.0) == Seq::new(4096, |i: int| 0u8)
                &&& frames_unchanged_except(*old(mem), *final(mem), ft.ppn.0)
                &&& final(mem).free_count() == old(mem).free_count() - 1
                &&& forall|q: u64| old(mem).live(q) ==> final(mem).live(q)
                &&& forall|q: u64| final(mem).live(q) ==> old(mem).live(q) || q == ft.ppn.0
            },
            None => {
                &&& old(mem).free_count() == 0
                &&& final(mem).alloc_state().cur() == old(mem).alloc_state().cur()
                &&& final(mem).alloc_state().top() == old(mem).alloc_state().top()
                &&& final(mem).alloc_state().pool() == old(mem).alloc_state().pool()
                &&& frames_unchanged(*old(mem), *final(mem))
            },
        },
{
    let r = mem.allocator.alloc_page();
    match r {
        Some(ppn) => {
            proof {
                let a0 = old(mem).alloc_state();
                let a1 = mem.alloc_state();
                if a0.pool().len() > 0 {
                    assert(a0.pool()[a0.pool().len() - 1] == ppn.0);
                    assert forall|i: int|
                        0 <= i < a1.pool().len() implies #[trigger] a1.pool()[i]
                        >= mem.first() by {
                        assert(a0.pool()[i] == a1.pool()[i]);
                    }
                }
                assert(mem.wf());
                assert(mem.in_range(ppn.0));
            }
            let ft = FrameTracker::new(ppn, mem);
            Some(ft)
        },
        None => None,
    }
}

/// Frees the frame `ppn`, returning it to the recycling pool. Freeing a
/// page outside the allocated range, or freeing one twice, is a fatal
/// programming error; the contract rules both out.
pub fn frame_dealloc(mem: &mut PhysMem, ppn: PhysPageNum)
    requires
        old(mem).wf(),
        old(mem).live(ppn.0),
    ensures
        final(mem).wf(),
        same_extent(*old(mem), *final(mem)),
        frames_unchanged(*old(mem), *final(mem)),
        final(mem).alloc_state().cur() == old(mem).alloc_state().cur(),
        final(mem).alloc_state().top() == old(mem).alloc_state().top(),
        final(mem).alloc_state().pool() == old(mem).alloc_state().pool().push(ppn.0),
        final(mem).free_count() == old(mem).free_count() + 1,
        forall|q: u64| final(mem).live(q) == (old(mem).live(q) && q != ppn.0),
{
    proof {
        assert(old(mem).alloc_state().live(ppn.0));
    }
    mem.allocator.dealloc(ppn);
    proof {
        let a0 = old(mem).alloc_state();
        let a1 = mem.alloc_state();
        assert forall|i: int|
            0 <= i < a1.pool().len() implies #[trigger] a1.pool()[i] >= mem.first() by {
            if i < a0.pool().len() {
                assert(a0.pool()[i] == a1.pool()[i]);
            } else {
                assert(a1.pool()[i] == ppn.0);
            }
        }
    }
}

/// Allocates `pages` frames at once, each zero-filled, all or nothing.
pub fn frame_alloc_more(mem: &mut PhysMem, pages: usize) -> (r: Option<Vec<FrameTracker>>)
    requires
        old(mem).wf(),
    ensures
        final(mem).wf(),
        same_extent(*old(mem), *final(mem)),
        match r {
            Some(fts) => {
                &&& fts@.len() == pages
                &&& StackFrameAllocator::alloc_more_post(
                    old(mem).alloc_state(),
                    final(mem).alloc_state(),
                    fts@.map_values(|ft: FrameTracker| ft.ppn),
                    pages,
                )
                &&& forall|i: int|
                    0 <= i < pages ==> final(mem).is_bytes((#[trigger] fts@[i]).ppn.0)
                &&& forall|i: int|
                    0 <= i < pages ==> final(mem).bytes_at((#[trigger] fts@[i]).ppn.0) == Seq::new(
                        4096,
                        |j: int| 0u8,
                    )
                &&& forall|i: int| 0 <= i < pages ==> old(mem).in_range((#[trigger] fts@[i]).ppn.0)
                &&& forall|q: u64|
                    old(mem).in_range(q) && (forall|i: int|
                        0 <= i < pages ==> (#[trigger] fts@[i]).ppn.0 != q) ==> final(mem).fview(q)
                        == old(mem).fview(q)
                &&& final(mem).free_count() == old(mem).free_count() - pages
                &&& forall|q: u64| old(mem).live(q) ==> final(mem).live(q)
            },
            None => {
                &&& old(mem).alloc_state().pool().len() < pages
                &&& old(mem).alloc_state().top() - old(mem).alloc_state().cur() < pages
                &&& final(mem).alloc_state().cur() == old(mem).alloc_state().cur()
                &&& final(mem).alloc_state().top() == old(mem).alloc_state().top()
                &&& final(mem).alloc_state().pool() == old(mem).alloc_state().pool()
                &&& frames_unchanged(*old(mem), *final(mem))
            },
        },
{
    let r = mem.allocator.alloc_more(pages);
    match r {
        Some(v) => {
            let ghost a0 = old(mem).alloc_state();
            let ghost a1 = mem.alloc_state();
            let ghost ppns = v@;
            proof {
                if a0.pool().len() >= pages {
                    assert(a1.pool() == a0.pool().skip(pages as int));
                    assert forall|i: int|
                        0 <= i < a1.pool().len() implies #[trigger] a1.pool()[i]
                        >= mem.first() by {
                        assert(a0.pool()[i + pages] == a1.pool()[i]);
                    }
                }
                assert(mem.wf());
                assert forall|i: int| 0 <= i < pages implies mem.in_range(
                    (#[trigger] ppns[i]).0,
                ) by {
                    if a0.pool().len() >= pages {
                        assert(ppns[i].0 == a0.pool()[i]);
                        assert(a0.pool()[i] >= old(mem).first());
                    } else {
                        assert(ppns[i].0 == a0.cur() + pages - 1 - i);
                    }
                    assert(ppns[i].0 < a0.top());
                }
            }
            let mut fts: Vec<FrameTracker> = Vec::new();
            let mut k: usize = 0;
            while k < pages
                invariant
                    k <= pages,
                    v@ == ppns && ppns.len() == pages,
                    forall|i: int| 0 <= i < pages ==> mem.in_range((#[trigger] ppns[i]).0),
                    mem.wf(),
                    same_extent(*old(mem), *mem),
                    mem.alloc_state() == a1,
                    StackFrameAllocator::alloc_more_post(
                        old(mem).alloc_state(),
                        a1,
                        ppns,
                        pages,
                    ),
                    fts@.len() == k,
                    forall|i: int| 0 <= i < k ==> (#[trigger] fts@[i]).ppn == ppns[i],
                    forall|i: int| 0 <= i < k ==> mem.is_bytes((#[trigger] ppns[i]).0),
                    forall|i: int|
                        0 <= i < k ==> mem.bytes_at((#[trigger] ppns[i]).0) == Seq::new(
                            4096,
                            |j: int| 0u8,
                        ),
                    forall|q: u64|
                        old(mem).in_range(q) && (forall|i: int|
                            0 <= i < k ==> (#[trigger] ppns[i]).0 != q) ==> mem.fview(q) == old(
                            mem,
                        ).fview(q),
                decreases pages - k,
            {
                let ppn = v[k];
                let ft = FrameTracker::new(ppn, mem);
                fts.push(ft);
                k = k + 1;
            }
            proof {
                assert(fts@.map_values(|ft: FrameTracker| ft.ppn) =~= ppns);
            }
            Some(fts)
        },
        None => None,
    }
}

/// Builds the arena over the physical pages between the end of the kernel
/// image and the configured end of memory.
pub fn init_frame_allocator(ekernel: PhysAddr) -> (m: PhysMem)
    requires
        ekernel.0 <= MEMORY_END,
    ensures
        m.wf(),
        m.first() == crate::address::spec_page_ceil(ekernel.0 as int),
        m.alloc_state().cur() == m.first(),
        m.alloc_state().top() == crate::address::spec_page_floor(MEMORY_END as int),
        m.free_count() == m.alloc_state().top() - m.first(),
        forall|q: u64| !m.live(q),
{
    let l = ekernel.ceil();
    let r = PhysAddr::from(MEMORY_END).floor();
    proof {
        vstd::arithmetic::div_mod::lemma_div_is_ordered(
            ekernel.0 + 4095,
            MEMORY_END + 4095,
            4096,
        );
        assert((MEMORY_END as int + 4095) / 4096 == MEMORY_END as int / 4096);
        assert(MEMORY_END as int % (PA_BOUND as int) == MEMORY_END as int);
    }
    PhysMem::new(l, r)
}

} // verus!
