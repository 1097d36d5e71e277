//! Mapping areas and whole address spaces.
//!
//! A map area is a contiguous range of virtual pages with one backing
//! policy — identical (page number unchanged), framed (each page backed by
//! an owned, freshly allocated frame), or linear (a fixed page-number
//! offset) — and one permission set. An address space is one page table
//! plus the areas installed in it.

use vstd::arithmetic::div_mod::{
    lemma_div_is_ordered, lemma_fundamental_div_mod, lemma_fundamental_div_mod_converse,
    lemma_mod_mod,
};
use vstd::prelude::*;

use crate::address::{
    spec_page_ceil, spec_page_floor, vpn_i0, vpn_i1, PhysAddr, PhysPageNum, SimpleRange, VPNRange,
    VirtAddr, VirtPageNum,
};
use crate::config::{MEMORY_END, PA_BOUND, PPN_BOUND, TRAMPOLINE, VA_BOUND, VPN_BOUND};
use crate::frame_allocator::{
    frame_alloc, frame_dealloc, frames_unchanged_except, same_extent, FrameTracker, PhysMem,
};
use crate::page_table::{
    flags_with_valid, lemma_vpn_indices, lemma_walk_unchanged, map_post, unmap_post, PTEFlags,
    PageTable, PageTableEntry,
};

verus! {

/// The backing policy of a map area.
#[derive(Clone, Copy, Debug, PartialEq, Eq, Structural)]
pub enum MapType {
    /// The physical page number equals the virtual page number.
    Identical,
    /// Each virtual page is backed by an independently owned frame.
    Framed,
    /// The physical page number is the virtual page number plus a fixed
    /// signed offset.
    Linear(i64),
}

/// The permission set of a map area, one `bool` per hardware flag the
/// area grants: Read, Write, eXecute, User.
#[derive(Clone, Copy, Debug, PartialEq, Eq, Structural)]
pub struct MapPermission {
    pub r: bool,
    pub w: bool,
    pub x: bool,
    pub u: bool,
}

impl MapPermission {
    /// The permission set granting nothing.
    pub fn empty() -> (p: MapPermission)
        ensures
            p == (MapPermission { r: false, w: false, x: false, u: false }),
    {
        MapPermission { r: false, w: false, x: false, u: false }
    }

    /// The page-table flag set these permissions stand for; the Valid bit
    /// is left clear and is forced on when a translation is installed.
    pub open spec fn spec_pte_flags(self) -> PTEFlags {
        PTEFlags {
            v: false,
            r: self.r,
            w: self.w,
            x: self.x,
            u: self.u,
            g: false,
            a: false,
            d: false,
            rsv0: false,
            rsv1: false,
        }
    }

    /// Converts the permissions into page-table entry flags.
    pub fn pte_flags(&self) -> (f: PTEFlags)
        ensures
            f == self.spec_pte_flags(),
    {
        PTEFlags {
            v: false,
            r: self.r,
            w: self.w,
            x: self.x,
            u: self.u,
            g: false,
            a: false,
            d: false,
            rsv0: false,
            rsv1: false,
        }
    }

    /// The encoding of this permission set in the low flag byte, bit 1 =
    /// Read ... bit 4 = User.
    pub open spec fn spec_bits(self) -> u8 {
        ((if self.r {
            2int
        } else {
            0int
        }) + (if self.w {
            4int
        } else {
            0int
        }) + (if self.x {
            8int
        } else {
            0int
        }) + (if self.u {
            16int
        } else {
            0int
        })) as u8
    }

    /// The hardware encoding of this permission set.
    pub fn bits(&self) -> (b: u8)
        ensures
            b == self.spec_bits(),
    {
        (if self.r {
            2u8
        } else {
            0u8
        }) + (if self.w {
            4u8
        } else {
            0u8
        }) + (if self.x {
            8u8
        } else {
            0u8
        }) + (if self.u {
            16u8
        } else {
            0u8
        })
    }
}

/// An upper bound on the node frames a table might have to create to map
/// every page of `[lo, hi)`: one leaf node per 512-page block touched and
/// one middle node per 262144-page block touched.
pub open spec fn range_cost(lo: int, hi: int) -> int {
    if lo >= hi {
        0
    } else {
        ((hi - 1) / 512 - lo / 512 + 1) + ((hi - 1) / 0x40000 - lo / 0x40000 + 1)
    }
}

/// Incrementing the numerator steps the quotient exactly at multiples of
/// the divisor.
proof fn lemma_div_step(n: int, d: int)
    requires
        0 <= n,
        0 < d,
    ensures
        (n + 1) / d == n / d + (if n % d == d - 1 {
            1int
        } else {
            0int
        }),
{
    lemma_fundamental_div_mod(n, d);
    if n % d == d - 1 {
        assert((n / d + 1) * d == d * (n / d) + d) by (nonlinear_arith);
        assert(n + 1 == (n / d + 1) * d + 0);
        lemma_fundamental_div_mod_converse(n + 1, d, n / d + 1, 0);
    } else {
        assert((n / d) * d == d * (n / d)) by (nonlinear_arith);
        assert(n + 1 == (n / d) * d + (n % d + 1));
        lemma_fundamental_div_mod_converse(n + 1, d, n / d, n % d + 1);
    }
}

/// A contiguous virtual-page range with one backing policy and one
/// permission set. For a framed area, `data_frames` holds the owned frame
/// of every page that is currently mapped.
pub struct MapArea {
    vpn_range: VPNRange,
    data_frames: Vec<(VirtPageNum, FrameTracker)>,
    map_type: MapType,
    map_perm: MapPermission,
}

impl MapArea {
    /// The first page of the range.
    pub closed spec fn lo(self) -> int {
        self.vpn_range.lo()
    }

    /// One past the last page of the range.
    pub closed spec fn hi(self) -> int {
        self.vpn_range.hi()
    }

    /// The backing policy.
    pub closed spec fn ty(self) -> MapType {
        self.map_type
    }

    /// The permission set.
    pub closed spec fn perm(self) -> MapPermission {
        self.map_perm
    }

    /// The owned frames of a framed area, in insertion order.
    pub closed spec fn frames_seq(self) -> Seq<(VirtPageNum, FrameTracker)> {
        self.data_frames@
    }

    /// Whether the area owns a frame for page `vpn`.
    pub open spec fn has_frame(self, vpn: int) -> bool {
        exists|k: int|
            0 <= k < self.frames_seq().len() && (#[trigger] self.frames_seq()[k]).0.0 == vpn
    }

    /// The index of the owned frame for page `vpn`.
    pub open spec fn frame_index_of(self, vpn: int) -> int {
        choose|k: int|
            0 <= k < self.frames_seq().len() && (#[trigger] self.frames_seq()[k]).0.0 == vpn
    }

    /// The physical page backing `vpn` in a framed area.
    pub open spec fn frame_ppn_of(self, vpn: int) -> u64 {
        self.frames_seq()[self.frame_index_of(vpn)].1.ppn.0
    }

    /// The physical page that virtual page `vpn` of this area maps to.
    pub open spec fn spec_target(self, vpn: int) -> int {
        match self.ty() {
            MapType::Identical => vpn,
            MapType::Framed => self.frame_ppn_of(vpn) as int,
            MapType::Linear(off) => vpn + off,
        }
    }

    /// The area's internal consistency: a half-open in-bounds range, frames
    /// only for framed areas and only for pages of the range, one frame per
    /// page, and a linear offset that keeps every target page representable.
    pub open spec fn wf(self) -> bool {
        &&& 0 <= self.lo() <= self.hi() <= VPN_BOUND
        &&& (!(self.ty() is Framed) ==> self.frames_seq().len() == 0)
        &&& forall|k: int|
            0 <= k < self.frames_seq().len() ==> self.lo() <= (
            #[trigger] self.frames_seq()[k]).0.0 < self.hi()
        &&& forall|k: int, l: int|
            0 <= k < l < self.frames_seq().len() ==> (#[trigger] self.frames_seq()[k]).0.0 != (
            #[trigger] self.frames_seq()[l]).0.0
        &&& match self.ty() {
            MapType::Linear(off) => self.lo() + off >= 0 && self.hi() + off <= PPN_BOUND,
            _ => true,
        }
    }

    /// The owned frames are distinct, allocated, zero-fill-initialised data
    /// frames of the arena.
    pub open spec fn frames_wf(self, mem: PhysMem) -> bool {
        &&& forall|k: int|
            0 <= k < self.frames_seq().len() ==> mem.live(
                (#[trigger] self.frames_seq()[k]).1.ppn.0,
            ) && mem.is_bytes(self.frames_seq()[k].1.ppn.0)
        &&& forall|k: int, l: int|
            0 <= k < l < self.frames_seq().len() ==> (#[trigger] self.frames_seq()[k]).1.ppn.0 != (
            #[trigger] self.frames_seq()[l]).1.ppn.0
    }

    /// Whether every page of the area resolves in `pt` to its target page
    /// with the area's permissions (Valid forced on), and — for a framed
    /// area — every page of the range owns a frame.
    pub open spec fn mapped_in(self, pt: PageTable, mem: PhysMem) -> bool {
        &&& forall|v: int|
            self.lo() <= v < self.hi() ==> ((#[trigger] pt.spec_resolve(mem, v as u64))
                matches Some(e) && e.spec_ppn() == self.spec_target(v) && e.spec_flags()
                == flags_with_valid(self.perm().spec_pte_flags()))
        &&& (self.ty() is Framed ==> forall|v: int|
            self.lo() <= v < self.hi() ==> #[trigger] self.has_frame(v))
        &&& (self.ty() is Framed ==> self.frames_seq().len() == self.hi() - self.lo())
    }

    /// How many frames mapping the whole area may consume: the node bound
    /// for the range plus, for a framed area, one data frame per page.
    pub open spec fn area_cost(self) -> int {
        range_cost(self.lo(), self.hi()) + if self.ty() is Framed {
            self.hi() - self.lo()
        } else {
            0
        }
    }

    /// A fresh, not-yet-mapped area covering the pages that the half-open
    /// address range `[start_va, end_va)` touches.
    pub fn new(start_va: VirtAddr, end_va: VirtAddr, map_type: MapType, map_perm: MapPermission)
        -> (a: MapArea)
        requires
            start_va.0 <= end_va.0 <= VA_BOUND,
            match map_type {
                MapType::Linear(off) => spec_page_floor(start_va.0 as int) + off >= 0
                    && spec_page_ceil(end_va.0 as int) + off <= PPN_BOUND,
                _ => true,
            },
        ensures
            a.wf(),
            a.lo() == spec_page_floor(start_va.0 as int),
            a.hi() == spec_page_ceil(end_va.0 as int),
            a.ty() == map_type,
            a.perm() == map_perm,
            a.frames_seq().len() == 0,
    {
        let start_vpn = start_va.floor();
        let end_vpn = end_va.ceil();
        proof {
            crate::address::lemma_floor_le_ceil(end_va.0 as int);
            lemma_div_is_ordered(start_va.0 as int, end_va.0 as int, 4096);
            lemma_div_is_ordered(end_va.0 as int + 4095, VA_BOUND as int + 4095, 4096);
            assert((VA_BOUND as int + 4095) / 4096 == VPN_BOUND);
        }
        MapArea {
            vpn_range: SimpleRange::new(start_vpn, end_vpn),
            data_frames: Vec::new(),
            map_type,
            map_perm,
        }
    }

    /// A fresh area with the same range, policy and permissions as another,
    /// but owning no frames yet: bookkeeping for a not-yet-populated copy.
    pub fn from_another(another: &MapArea) -> (a: MapArea)
        requires
            another.wf(),
        ensures
            a.wf(),
            a.lo() == another.lo(),
            a.hi() == another.hi(),
            a.ty() == another.ty(),
            a.perm() == another.perm(),
            a.frames_seq().len() == 0,
    {
        MapArea {
            vpn_range: SimpleRange::new(
                another.vpn_range.get_start(),
                another.vpn_range.get_end(),
            ),
            data_frames: Vec::new(),
            map_type: another.map_type,
            map_perm: another.map_perm,
        }
    }
}

/// What mapping one page of an area guarantees: the page resolves to its
/// target with the area's permissions, nothing else changes its
/// translation, a framed area gains exactly one fresh zero-filled frame,
/// and the arena changed only at the path's nodes and that frame.
pub open spec fn map_one_post(
    a0: MapArea,
    a1: MapArea,
    pt0: PageTable,
    pt1: PageTable,
    m0: PhysMem,
    m2: PhysMem,
    vpnv: u64,
) -> bool {
    let i0 = vpn_i0(vpnv as int);
    let i1 = vpn_i1(vpnv as int);
    &&& a1.wf()
    &&& a1.lo() == a0.lo() && a1.hi() == a0.hi() && a1.ty() == a0.ty() && a1.perm() == a0.perm()
    &&& pt1.root() == pt0.root()
    &&& m2.wf()
    &&& same_extent(m0, m2)
    &&& pt1.wf_in(m2)
    &&& pt1.nodes_live(m2)
    &&& (pt1.spec_resolve(m2, vpnv) matches Some(e) && e.spec_ppn() == a1.spec_target(
        vpnv as int,
    ) && e.spec_flags() == flags_with_valid(a0.perm().spec_pte_flags()))
    &&& forall|w: u64|
        w < VPN_BOUND && w != vpnv ==> #[trigger] pt1.spec_resolve(m2, w) == pt0.spec_resolve(
            m0,
            w,
        )
    &&& forall|j0: int| 0 <= j0 < 512 && pt0.has_mid(m0, j0) ==> #[trigger] pt1.has_mid(m2, j0)
    &&& forall|j0: int, j1: int|
        0 <= j0 < 512 && 0 <= j1 < 512 && pt0.has_leaf_table(m0, j0, j1)
            ==> #[trigger] pt1.has_leaf_table(m2, j0, j1)
    &&& pt1.has_mid(m2, i0)
    &&& pt1.has_leaf_table(m2, i0, i1)
    &&& if a0.ty() is Framed {
        &&& a1.frames_seq().len() == a0.frames_seq().len() + 1
        &&& forall|k: int|
            0 <= k < a0.frames_seq().len() ==> #[trigger] a1.frames_seq()[k]
                == a0.frames_seq()[k]
        &&& a1.frames_seq().last().0.0 == vpnv
        &&& !m0.live(a1.frames_seq().last().1.ppn.0)
        &&& m2.live(a1.frames_seq().last().1.ppn.0)
        &&& m2.is_bytes(a1.frames_seq().last().1.ppn.0)
        &&& m2.bytes_at(a1.frames_seq().last().1.ppn.0) == Seq::new(4096, |i: int| 0u8)
    } else {
        a1.frames_seq() == a0.frames_seq()
    }
    &&& (a0.frames_wf(m0) ==> a1.frames_wf(m2))
    &&& forall|q: u64| m0.live(q) ==> #[trigger] m2.live(q)
    &&& forall|q: u64|
        #[trigger] m2.live(q) ==> m0.live(q) || q == pt1.mid(m2, i0) || q == pt1.leaf(m2, i0, i1)
            || (a0.ty() is Framed && q == a1.frames_seq().last().1.ppn.0)
    &&& forall|q: u64|
        m0.is_bytes(q) && m0.live(q) ==> #[trigger] m2.fview(q) == m0.fview(q)
    &&& m2.free_count() == m0.free_count() - pt0.spec_missing(m0, vpnv) - (
    if a0.ty() is Framed {
        1int
    } else {
        0int
    })
    &&& m2.alloc_state().top() == m0.alloc_state().top()
}

impl MapArea {
    /// Installs the translation for one page of the area: an identical or
    /// linear page maps straight to its target, a framed page first takes
    /// ownership of a fresh zero-filled frame.
    #[verifier::rlimit(100)]
    #[verifier::spinoff_prover]
    pub fn map_one(&mut self, page_table: &mut PageTable, mem: &mut PhysMem, vpn: VirtPageNum)
        requires
            old(self).wf(),
            old(mem).wf(),
            old(page_table).wf_in(*old(mem)),
            old(page_table).nodes_live(*old(mem)),
            old(self).lo() <= vpn.0 < old(self).hi(),
            !old(page_table).is_mapped(*old(mem), vpn.0),
            old(self).ty() is Framed ==> !old(self).has_frame(vpn.0 as int),
            old(mem).free_count() >= old(page_table).spec_missing(*old(mem), vpn.0) + (
            if old(self).ty() is Framed {
                1int
            } else {
                0int
            }),
        ensures
            map_one_post(
                *old(self),
                *final(self),
                *old(page_table),
                *final(page_table),
                *old(mem),
                *final(mem),
                vpn.0,
            ),
    {
        let ghost m0 = *old(mem);
        let ghost pt0 = *old(page_table);
        let ghost a0 = *old(self);
        let mut ppn = PhysPageNum(vpn.0);
        match self.map_type {
            MapType::Identical => {},
            MapType::Framed => {
                let frame = match frame_alloc(mem) {
                    Some(f) => f,
                    None => {
                        proof {
                            assert(false);
                        }
                        FrameTracker { ppn: PhysPageNum(0) }
                    },
                };
                ppn = frame.ppn;
                self.data_frames.push((vpn, frame));
            },
            MapType::Linear(off) => {
                ppn = PhysPageNum((vpn.0 as i64 + off) as u64);
            },
        }
        let ghost m_a = *mem;
        proof {
            lemma_map_one_prepare(a0, *self, pt0, m0, m_a, vpn.0, ppn.0);
        }
        let pte_flags = self.map_perm.pte_flags();
        page_table.map(mem, vpn, ppn, pte_flags);
        proof {
            lemma_map_one_finish(a0, *self, pt0, *page_table, m0, m_a, *mem, vpn.0, ppn.0);
        }
    }
}

/// After a framed area has taken its fresh frame (or an identical or
/// linear area has done nothing), the page table reads exactly as before
/// and the page's target is the computed page number.
#[verifier::rlimit(100)]
#[verifier::spinoff_prover]
proof fn lemma_map_one_prepare(
    a0: MapArea,
    a1: MapArea,
    pt0: PageTable,
    m0: PhysMem,
    m_a: PhysMem,
    vpnv: u64,
    ppnv: u64,
)
    requires
        a0.wf(),
        m0.wf(),
        m_a.wf(),
        pt0.wf_in(m0),
        pt0.nodes_live(m0),
        a0.lo() <= vpnv < a0.hi(),
        !pt0.is_mapped(m0, vpnv),
        a0.ty() is Framed ==> !a0.has_frame(vpnv as int),
        m0.free_count() >= pt0.spec_missing(m0, vpnv) + (if a0.ty() is Framed {
            1int
        } else {
            0int
        }),
        a1.lo() == a0.lo() && a1.hi() == a0.hi() && a1.ty() == a0.ty() && a1.perm() == a0.perm(),
        if a0.ty() is Framed {
            &&& a1.frames_seq() == a0.frames_seq().push(
                (VirtPageNum(vpnv), a1.frames_seq().last().1),
            )
            &&& a1.frames_seq().last().1.ppn.0 == ppnv
            &&& same_extent(m0, m_a)
            &&& !m0.live(ppnv)
            &&& m_a.live(ppnv)
            &&& m0.in_range(ppnv)
            &&& m_a.is_bytes(ppnv)
            &&& m_a.bytes_at(ppnv) == Seq::new(4096, |i: int| 0u8)
            &&& frames_unchanged_except(m0, m_a, ppnv)
            &&& (forall|q: u64| m0.live(q) ==> #[trigger] m_a.live(q))
            &&& (forall|q: u64| #[trigger] m_a.live(q) ==> m0.live(q) || q == ppnv)
            &&& m_a.free_count() == m0.free_count() - 1
            &&& m_a.alloc_state().top() == m0.alloc_state().top()
        } else {
            &&& a1.frames_seq() == a0.frames_seq()
            &&& m_a == m0
            &&& ppnv == (match a0.ty() {
                MapType::Identical => vpnv as int,
                MapType::Linear(off) => vpnv + off,
                MapType::Framed => 0int,
            })
        },
    ensures
        pt0.wf_in(m_a),
        pt0.nodes_live(m_a),
        !pt0.is_mapped(m_a, vpnv),
        pt0.spec_missing(m_a, vpnv) == pt0.spec_missing(m0, vpnv),
        m_a.free_count() >= pt0.spec_missing(m_a, vpnv),
        ppnv < PPN_BOUND,
        a1.wf(),
        a1.spec_target(vpnv as int) == ppnv,
        forall|w: u64|
            w < VPN_BOUND ==> #[trigger] pt0.spec_resolve(m_a, w) == pt0.spec_resolve(m0, w),
        forall|j0: int|
            0 <= j0 < 512 ==> #[trigger] pt0.has_mid(m_a, j0) == pt0.has_mid(m0, j0),
        forall|j0: int, j1: int|
            0 <= j0 < 512 && 0 <= j1 < 512 ==> #[trigger] pt0.has_leaf_table(m_a, j0, j1)
                == pt0.has_leaf_table(m0, j0, j1),
{
    lemma_vpn_indices(vpnv);
    if a0.ty() is Framed {
        // the fresh data frame is none of the table's nodes
        assert(m_a.fview(pt0.root()) == m0.fview(pt0.root())) by {
            assert(m0.live(pt0.root()));
        }
        assert forall|i0: int|
            0 <= i0 < 512 && pt0.has_mid(m0, i0) implies m_a.fview(#[trigger] pt0.mid(m0, i0))
            == m0.fview(pt0.mid(m0, i0)) by {
            assert(m0.live(pt0.mid(m0, i0)));
        }
        assert forall|i0: int, i1: int|
            0 <= i0 < 512 && 0 <= i1 < 512 && pt0.has_leaf_table(m0, i0, i1) implies m_a.fview(
            #[trigger] pt0.leaf(m0, i0, i1),
        ) == m0.fview(pt0.leaf(m0, i0, i1)) by {
            assert(m0.live(pt0.leaf(m0, i0, i1)));
        }
        lemma_walk_unchanged(pt0, m0, m_a);
        assert(pt0.nodes_live(m_a)) by {
            assert forall|i0: int| 0 <= i0 < 512 && pt0.has_mid(m_a, i0) implies m_a.live(
                #[trigger] pt0.mid(m_a, i0),
            ) by {
                assert(pt0.mid(m_a, i0) == pt0.mid(m0, i0));
                assert(m0.live(pt0.mid(m0, i0)));
            }
            assert forall|i0: int, i1: int|
                0 <= i0 < 512 && 0 <= i1 < 512 && pt0.has_leaf_table(m_a, i0, i1) implies m_a.live(
                #[trigger] pt0.leaf(m_a, i0, i1),
            ) by {
                assert(pt0.leaf(m_a, i0, i1) == pt0.leaf(m0, i0, i1));
                assert(m0.live(pt0.leaf(m0, i0, i1)));
            }
        }
        assert(pt0.spec_resolve(m_a, vpnv) == pt0.spec_resolve(m0, vpnv));
        // the new frame map still has one frame per page
        assert(a1.wf()) by {
            let s0 = a0.frames_seq();
            let s1 = a1.frames_seq();
            assert(s1.len() == s0.len() + 1);
            assert forall|k: int, l: int|
                0 <= k < l < s1.len() implies (#[trigger] s1[k]).0.0 != (
            #[trigger] s1[l]).0.0 by {
                if l < s0.len() {
                    assert(s1[k] == s0[k] && s1[l] == s0[l]);
                } else {
                    assert(s1[k] == s0[k]);
                    assert(s1[l].0.0 == vpnv);
                    if s0[k].0.0 == vpnv {
                        assert(a0.has_frame(vpnv as int));
                    }
                }
            }
        }
        // the chosen frame for this page is the one just pushed
        assert(a1.has_frame(vpnv as int)) by {
            assert(a1.frames_seq()[a1.frames_seq().len() - 1].0.0 == vpnv);
        }
        assert(a1.frame_ppn_of(vpnv as int) == ppnv) by {
            let k = a1.frame_index_of(vpnv as int);
            assert(0 <= k < a1.frames_seq().len() && a1.frames_seq()[k].0.0 == vpnv);
            if k < a0.frames_seq().len() {
                assert(a1.frames_seq()[k] == a0.frames_seq()[k]);
                assert(a0.has_frame(vpnv as int));
            }
        }
        assert(ppnv < PPN_BOUND) by {
            assert(m0.in_range(ppnv));
        }
    } else {
        assert(a1.wf());
        match a0.ty() {
            MapType::Identical => {
                assert(ppnv == vpnv);
            },
            MapType::Linear(off) => {
                assert(a0.lo() + off >= 0 && a0.hi() + off <= PPN_BOUND);
            },
            MapType::Framed => {},
        }
    }
}

/// Assembles the guarantee of mapping one page from the frame-allocation
/// step and the page-table step.
#[verifier::rlimit(100)]
#[verifier::spinoff_prover]
proof fn lemma_map_one_finish(
    a0: MapArea,
    a1: MapArea,
    pt0: PageTable,
    pt1: PageTable,
    m0: PhysMem,
    m_a: PhysMem,
    m2: PhysMem,
    vpnv: u64,
    ppnv: u64,
)
    requires
        a0.wf(),
        m0.wf(),
        m_a.wf(),
        pt0.wf_in(m0),
        pt0.nodes_live(m0),
        a0.lo() <= vpnv < a0.hi(),
        a1.lo() == a0.lo() && a1.hi() == a0.hi() && a1.ty() == a0.ty() && a1.perm() == a0.perm(),
        a1.wf(),
        a1.spec_target(vpnv as int) == ppnv,
        pt0.wf_in(m_a),
        map_post(pt0, pt1, m_a, m2, vpnv, ppnv, a0.perm().spec_pte_flags()),
        pt0.spec_missing(m_a, vpnv) == pt0.spec_missing(m0, vpnv),
        forall|w: u64|
            w < VPN_BOUND ==> #[trigger] pt0.spec_resolve(m_a, w) == pt0.spec_resolve(m0, w),
        forall|j0: int|
            0 <= j0 < 512 ==> #[trigger] pt0.has_mid(m_a, j0) == pt0.has_mid(m0, j0),
        forall|j0: int, j1: int|
            0 <= j0 < 512 && 0 <= j1 < 512 ==> #[trigger] pt0.has_leaf_table(m_a, j0, j1)
                == pt0.has_leaf_table(m0, j0, j1),
        if a0.ty() is Framed {
            &&& a1.frames_seq() == a0.frames_seq().push(
                (VirtPageNum(vpnv), a1.frames_seq().last().1),
            )
            &&& a1.frames_seq().last().1.ppn.0 == ppnv
            &&& same_extent(m0, m_a)
            &&& !m0.live(ppnv)
            &&& m_a.live(ppnv)
            &&& m_a.is_bytes(ppnv)
            &&& m_a.bytes_at(ppnv) == Seq::new(4096, |i: int| 0u8)
            &&& frames_unchanged_except(m0, m_a, ppnv)
            &&& (forall|q: u64| m0.live(q) ==> #[trigger] m_a.live(q))
            &&& (forall|q: u64| #[trigger] m_a.live(q) ==> m0.live(q) || q == ppnv)
            &&& m_a.free_count() == m0.free_count() - 1
            &&& m_a.alloc_state().top() == m0.alloc_state().top()
        } else {
            &&& a1.frames_seq() == a0.frames_seq()
            &&& m_a == m0
        },
    ensures
        map_one_post(a0, a1, pt0, pt1, m0, m2, vpnv),
{
    lemma_vpn_indices(vpnv);
    let i0 = vpn_i0(vpnv as int);
    let i1 = vpn_i1(vpnv as int);
    let framed = a0.ty() is Framed;
    lemma_map_new_nodes(pt0, pt1, m_a, m2, vpnv, ppnv, a0.perm().spec_pte_flags());
    // translations other than the new one are exactly as at the start
    assert forall|w: u64| w < VPN_BOUND && w != vpnv implies #[trigger] pt1.spec_resolve(m2, w)
        == pt0.spec_resolve(m0, w) by {
        assert(pt1.spec_resolve(m2, w) == pt0.spec_resolve(m_a, w));
    }
    // the allocated data frame survives the page-table step untouched
    if framed {
        assert(m2.fview(ppnv) == m_a.fview(ppnv)) by {
            assert(m_a.live(ppnv));
            assert(ppnv != pt1.root()) by {
                assert(m0.live(pt0.root()));
            }
            if pt0.has_mid(m_a, i0) {
                assert(m_a.is_table(pt0.mid(m_a, i0)));
            }
            if pt0.has_leaf_table(m_a, i0, i1) {
                assert(m_a.is_table(pt0.leaf(m_a, i0, i1)));
            }
            assert(ppnv != pt1.mid(m2, i0) && ppnv != pt1.leaf(m2, i0, i1));
        }
        assert(m2.live(ppnv));
    }
    // pages that were live data frames at the start keep their contents
    assert forall|q: u64| m0.is_bytes(q) && m0.live(q) implies #[trigger] m2.fview(q) == m0.fview(
        q,
    ) by {
        assert(m_a.fview(q) == m0.fview(q)) by {
            if framed {
                assert(q != ppnv);
            }
        }
        assert(m_a.is_bytes(q) && m_a.live(q));
        assert(q != pt1.root()) by {
            assert(m_a.is_table(pt1.root()));
        }
        assert(q != pt1.mid(m2, i0) && q != pt1.leaf(m2, i0, i1)) by {
            if pt0.has_mid(m_a, i0) {
                assert(m_a.is_table(pt0.mid(m_a, i0)));
            }
            if pt0.has_leaf_table(m_a, i0, i1) {
                assert(m_a.is_table(pt0.leaf(m_a, i0, i1)));
            }
        }
        assert(m2.fview(q) == m_a.fview(q));
    }
    // the frame bookkeeping stays well formed
    if a0.frames_wf(m0) {
        lemma_map_one_frames_kept(a0, a1, m0, m2, vpnv, framed);
    }
    // liveness deltas compose
    assert forall|q: u64|
        #[trigger] m2.live(q) implies m0.live(q) || q == pt1.mid(m2, i0) || q == pt1.leaf(
        m2,
        i0,
        i1,
    ) || (framed && q == a1.frames_seq().last().1.ppn.0) by {
        if m_a.live(q) {
        }
    }
}

/// An area's frame bookkeeping stays well formed across one mapping step:
/// the surviving frames kept their liveness and contents, and a fresh
/// frame, if any, cannot collide with them.
proof fn lemma_map_one_frames_kept(
    a0: MapArea,
    a1: MapArea,
    m0: PhysMem,
    m2: PhysMem,
    vpnv: u64,
    framed: bool,
)
    requires
        a0.frames_wf(m0),
        forall|q: u64| m0.live(q) ==> #[trigger] m2.live(q),
        forall|q: u64|
            m0.is_bytes(q) && m0.live(q) ==> #[trigger] m2.fview(q) == m0.fview(q),
        same_extent(m0, m2),
        if framed {
            &&& a1.frames_seq().len() == a0.frames_seq().len() + 1
            &&& forall|k: int|
                0 <= k < a0.frames_seq().len() ==> #[trigger] a1.frames_seq()[k]
                    == a0.frames_seq()[k]
            &&& !m0.live(a1.frames_seq().last().1.ppn.0)
            &&& m2.live(a1.frames_seq().last().1.ppn.0)
            &&& m2.is_bytes(a1.frames_seq().last().1.ppn.0)
        } else {
            a1.frames_seq() == a0.frames_seq()
        },
    ensures
        a1.frames_wf(m2),
{
    let s0 = a0.frames_seq();
    let s1 = a1.frames_seq();
    assert forall|k: int| 0 <= k < s1.len() implies m2.live((#[trigger] s1[k]).1.ppn.0)
        && m2.is_bytes(s1[k].1.ppn.0) by {
        if framed && k == s1.len() - 1 {
        } else {
            assert(s1[k] == s0[k]);
            assert(m0.live(s0[k].1.ppn.0) && m0.is_bytes(s0[k].1.ppn.0));
            assert(m2.fview(s0[k].1.ppn.0) == m0.fview(s0[k].1.ppn.0));
        }
    }
    assert forall|k: int, l: int|
        0 <= k < l < s1.len() implies (#[trigger] s1[k]).1.ppn.0 != (#[trigger] s1[l]).1.ppn.0 by {
        if framed && l == s1.len() - 1 {
            assert(s1[k] == s0[k]);
            assert(m0.live(s0[k].1.ppn.0));
        } else {
            assert(s1[k] == s0[k] && s1[l] == s0[l]);
        }
    }
}

/// The two path nodes after a map are either nodes the table already had
/// (well-formed table pages) or pages that were not live before the map.
proof fn lemma_map_new_nodes(
    pt0: PageTable,
    pt1: PageTable,
    m_a: PhysMem,
    m2: PhysMem,
    vpnv: u64,
    ppnv: u64,
    fl: PTEFlags,
)
    requires
        vpnv < VPN_BOUND,
        pt0.wf_in(m_a),
        map_post(pt0, pt1, m_a, m2, vpnv, ppnv, fl),
    ensures
        pt0.has_mid(m_a, vpn_i0(vpnv as int)) ==> pt1.mid(m2, vpn_i0(vpnv as int)) == pt0.mid(
            m_a,
            vpn_i0(vpnv as int),
        ),
        !pt0.has_mid(m_a, vpn_i0(vpnv as int)) ==> !m_a.live(pt1.mid(m2, vpn_i0(vpnv as int))),
        pt0.has_leaf_table(m_a, vpn_i0(vpnv as int), vpn_i1(vpnv as int)) ==> pt1.leaf(
            m2,
            vpn_i0(vpnv as int),
            vpn_i1(vpnv as int),
        ) == pt0.leaf(m_a, vpn_i0(vpnv as int), vpn_i1(vpnv as int)),
        !pt0.has_leaf_table(m_a, vpn_i0(vpnv as int), vpn_i1(vpnv as int)) ==> !m_a.live(
            pt1.leaf(m2, vpn_i0(vpnv as int), vpn_i1(vpnv as int)),
        ),
{
    lemma_vpn_indices(vpnv);
    let i0 = vpn_i0(vpnv as int);
    let i1 = vpn_i1(vpnv as int);
    assert(pt1.nodes_live(m2));
    assert(pt1.has_mid(m2, i0) && pt1.has_leaf_table(m2, i0, i1));
    assert(m2.live(pt1.mid(m2, i0)));
    assert(m2.live(pt1.leaf(m2, i0, i1)));
    if !m_a.live(pt1.mid(m2, i0)) {
    }
    if !m_a.live(pt1.leaf(m2, i0, i1)) {
    }
}

/// An entry of the frame map looks itself up: with one frame per page, the
/// frame chosen for an entry's page is that entry's frame.
proof fn lemma_frame_ppn_at(a: MapArea, k: int)
    requires
        forall|x: int, l: int|
            0 <= x < l < a.frames_seq().len() ==> (#[trigger] a.frames_seq()[x]).0.0 != (
            #[trigger] a.frames_seq()[l]).0.0,
        0 <= k < a.frames_seq().len(),
    ensures
        a.has_frame(a.frames_seq()[k].0.0 as int),
        a.frame_ppn_of(a.frames_seq()[k].0.0 as int) == a.frames_seq()[k].1.ppn.0,
{
    let v = a.frames_seq()[k].0.0 as int;
    assert(a.frames_seq()[k].0.0 == v);
    let kk = a.frame_index_of(v);
    if kk != k {
        assert(a.frames_seq()[kk].0.0 == v);
    }
}

/// Extending the frame map with a fresh page leaves every earlier page's
/// frame lookup unchanged.
proof fn lemma_frames_extend_stable(a0: MapArea, a1: MapArea, v: int)
    requires
        a1.frames_seq().len() == a0.frames_seq().len() + 1,
        forall|k: int|
            0 <= k < a0.frames_seq().len() ==> #[trigger] a1.frames_seq()[k] == a0.frames_seq()[k],
        forall|x: int, l: int|
            0 <= x < l < a1.frames_seq().len() ==> (#[trigger] a1.frames_seq()[x]).0.0 != (
            #[trigger] a1.frames_seq()[l]).0.0,
        a0.has_frame(v),
    ensures
        a1.has_frame(v),
        a1.frame_ppn_of(v) == a0.frame_ppn_of(v),
{
    let k0 = a0.frame_index_of(v);
    assert(0 <= k0 < a0.frames_seq().len() && a0.frames_seq()[k0].0.0 == v);
    assert(a1.frames_seq()[k0] == a0.frames_seq()[k0]);
    let k1 = a1.frame_index_of(v);
    assert(0 <= k1 < a1.frames_seq().len() && a1.frames_seq()[k1].0.0 == v);
    if k1 != k0 {
        assert(false);
    }
    let j0 = a0.frame_index_of(v);
    assert(a0.frames_seq()[j0].0.0 == v);
}

/// The frames a mapping loop still has to spend for the pages `[cur, hi)`,
/// given which nodes of the current page's path already exist.
pub open spec fn cost_rem(pt: PageTable, mem: PhysMem, cur: int, hi: int, framed: bool) -> int {
    if cur >= hi {
        0
    } else {
        (if framed {
            hi - cur
        } else {
            0int
        }) + ((hi - 1) / 512 - cur / 512 + 1) - (if pt.has_leaf_table(
            mem,
            vpn_i0(cur),
            vpn_i1(cur),
        ) {
            1int
        } else {
            0int
        }) + ((hi - 1) / 0x40000 - cur / 0x40000 + 1) - (if pt.has_mid(mem, vpn_i0(cur)) {
            1int
        } else {
            0int
        })
    }
}

/// The remaining cost covers the next page's needs: enough frames for the
/// missing path nodes and, for a framed area, the data frame.
proof fn lemma_cost_enough(pt: PageTable, mem: PhysMem, cur: int, hi: int, framed: bool)
    requires
        0 <= cur < hi <= VPN_BOUND,
    ensures
        cost_rem(pt, mem, cur, hi, framed) >= pt.spec_missing(mem, cur as u64) + (if framed {
            1int
        } else {
            0int
        }),
{
    lemma_div_is_ordered(cur, hi - 1, 512);
    lemma_div_is_ordered(cur, hi - 1, 0x40000);
    assert(cur as u64 as int == cur);
}

/// Mapping one page drops the remaining cost by at least what the page
/// spent: the amortisation that lets a whole-area bound pay for the walk's
/// node allocations.
#[verifier::rlimit(100)]
proof fn lemma_cost_step(
    pt_old: PageTable,
    pt_new: PageTable,
    m_old: PhysMem,
    m_new: PhysMem,
    cur: int,
    hi: int,
    framed: bool,
)
    requires
        0 <= cur < hi <= VPN_BOUND,
        pt_new.has_mid(m_new, vpn_i0(cur)),
        pt_new.has_leaf_table(m_new, vpn_i0(cur), vpn_i1(cur)),
        forall|j0: int|
            0 <= j0 < 512 && pt_old.has_mid(m_old, j0) ==> #[trigger] pt_new.has_mid(m_new, j0),
        forall|j0: int, j1: int|
            0 <= j0 < 512 && 0 <= j1 < 512 && pt_old.has_leaf_table(m_old, j0, j1)
                ==> #[trigger] pt_new.has_leaf_table(m_new, j0, j1),
    ensures
        cost_rem(pt_new, m_new, cur + 1, hi, framed) <= cost_rem(pt_old, m_old, cur, hi, framed)
            - pt_old.spec_missing(m_old, cur as u64) - (if framed {
            1int
        } else {
            0int
        }),
{
    let f: int = if framed {
        1
    } else {
        0
    };
    let hm: int = if pt_old.has_mid(m_old, vpn_i0(cur)) {
        1
    } else {
        0
    };
    let hl: int = if pt_old.has_leaf_table(m_old, vpn_i0(cur), vpn_i1(cur)) {
        1
    } else {
        0
    };
    assert(pt_old.spec_missing(m_old, cur as u64) == (1 - hm) + (1 - hl)) by {
        crate::page_table::lemma_vpn_indices(cur as u64);
    }
    let base = f * (hi - 1 - cur) + ((hi - 1) / 512 - cur / 512 + 1) - 1 + ((hi - 1) / 0x40000
        - cur / 0x40000 + 1) - 1;
    assert(cost_rem(pt_old, m_old, cur, hi, framed) - pt_old.spec_missing(m_old, cur as u64) - f
        == base) by {
        assert(f * (hi - cur) == f * (hi - 1 - cur) + f) by (nonlinear_arith);
    }
    if cur + 1 == hi {
        assert(cost_rem(pt_new, m_new, cur + 1, hi, framed) == 0);
        assert(base >= 0);
    } else {
        lemma_div_step(cur, 512);
        lemma_div_step(cur, 0x40000);
        lemma_mod_mod(cur, 512, 512);
        if cur % 512 == 511 {
            // a new 512-page block starts; the block counter pays for an
            // unknown leaf node there
            assert(cost_rem(pt_new, m_new, cur + 1, hi, framed) <= (if framed {
                hi - cur - 1
            } else {
                0int
            }) + ((hi - 1) / 512 - (cur / 512 + 1) + 1) + ((hi - 1) / 0x40000 - (cur + 1)
                / 0x40000 + 1));
            assert((cur + 1) / 0x40000 >= cur / 0x40000);
            if cur % 0x40000 == 0x3ffff {
                assert((cur + 1) / 0x40000 == cur / 0x40000 + 1);
            } else {
                assert((cur + 1) / 0x40000 == cur / 0x40000);
                // same top-level index: the middle node still exists
                assert(vpn_i0(cur + 1) == vpn_i0(cur));
                assert(pt_new.has_mid(m_new, vpn_i0(cur + 1)));
            }
        } else {
            // same 512-page block: same path indices, both nodes now exist
            assert((cur + 1) / 512 == cur / 512);
            assert(cur % 0x40000 != 0x3ffff);
            assert((cur + 1) / 0x40000 == cur / 0x40000);
            assert(vpn_i0(cur + 1) == vpn_i0(cur));
            assert(vpn_i1(cur + 1) == vpn_i1(cur)) by {
                assert((cur + 1) / 512 == cur / 512);
            }
            assert(pt_new.has_mid(m_new, vpn_i0(cur + 1)));
            assert(pt_new.has_leaf_table(m_new, vpn_i0(cur + 1), vpn_i1(cur + 1)));
        }
    }
}

/// What mapping a whole area guarantees: every page of the range resolves
/// to its target with the area's permissions, no other translation
/// changed, the frames the area took are fresh, and no live data frame was
/// touched.
pub open spec fn area_map_post(
    a0: MapArea,
    a1: MapArea,
    pt0: PageTable,
    pt1: PageTable,
    m0: PhysMem,
    m1: PhysMem,
) -> bool {
    &&& a1.wf()
    &&& a1.lo() == a0.lo() && a1.hi() == a0.hi() && a1.ty() == a0.ty() && a1.perm() == a0.perm()
    &&& pt1.root() == pt0.root()
    &&& m1.wf()
    &&& same_extent(m0, m1)
    &&& pt1.wf_in(m1)
    &&& pt1.nodes_live(m1)
    &&& a1.mapped_in(pt1, m1)
    &&& a1.frames_wf(m1)
    &&& forall|w: u64|
        w < VPN_BOUND && !(a0.lo() <= w < a0.hi()) ==> #[trigger] pt1.spec_resolve(m1, w)
            == pt0.spec_resolve(m0, w)
    &&& forall|q: u64| m0.live(q) ==> #[trigger] m1.live(q)
    &&& forall|q: u64|
        m0.is_bytes(q) && m0.live(q) ==> #[trigger] m1.fview(q) == m0.fview(q)
    &&& forall|k: int|
        0 <= k < a1.frames_seq().len() ==> !m0.live((#[trigger] a1.frames_seq()[k]).1.ppn.0)
    &&& forall|k: int|
        0 <= k < a1.frames_seq().len() ==> #[trigger] m1.bytes_at(a1.frames_seq()[k].1.ppn.0)
            == Seq::new(4096, |i: int| 0u8)
    &&& m1.free_count() >= m0.free_count() - a0.area_cost()
    &&& m1.alloc_state().top() == m0.alloc_state().top()
}

impl MapArea {
    /// Installs the whole area: walks the range in ascending page order and
    /// maps each page to its target. The area-cost bound in the contract
    /// pays for every node and data frame the walk can possibly take, so
    /// allocation cannot be exhausted mid-way.
    #[verifier::rlimit(100)]
    #[verifier::spinoff_prover]
    pub fn map(&mut self, page_table: &mut PageTable, mem: &mut PhysMem)
        requires
            old(self).wf(),
            old(self).frames_seq().len() == 0,
            old(mem).wf(),
            old(page_table).wf_in(*old(mem)),
            old(page_table).nodes_live(*old(mem)),
            forall|v: int|
                old(self).lo() <= v < old(self).hi() ==> !#[trigger] old(page_table).is_mapped(
                    *old(mem),
                    v as u64,
                ),
            old(mem).free_count() >= old(self).area_cost(),
        ensures
            area_map_post(
                *old(self),
                *final(self),
                *old(page_table),
                *final(page_table),
                *old(mem),
                *final(mem),
            ),
    {
        let ghost m0 = *old(mem);
        let ghost pt_0 = *old(page_table);
        let ghost a_0 = *old(self);
        let ghost framed = a_0.ty() is Framed;
        let start = self.vpn_range.get_start();
        let end = self.vpn_range.get_end();
        let mut cur: u64 = start.0;
        let hi: u64 = end.0;
        proof {
            if a_0.lo() < a_0.hi() {
                assert(cost_rem(pt_0, m0, a_0.lo(), a_0.hi(), framed) <= a_0.area_cost());
            }
            assert(map_loop_inv(a_0, *self, pt_0, *page_table, m0, *mem, a_0.lo()));
        }
        while cur < hi
            invariant
                a_0.lo() <= cur <= hi == a_0.hi(),
                framed == (a_0.ty() is Framed),
                map_loop_inv(a_0, *self, pt_0, *page_table, m0, *mem, cur as int),
            decreases hi - cur,
        {
            let ghost m_prev = *mem;
            let ghost pt_prev = *page_table;
            let ghost a_prev = *self;
            proof {
                assert(mem.free_count() >= cost_rem(
                    *page_table,
                    *mem,
                    cur as int,
                    hi as int,
                    framed,
                ));
                lemma_cost_enough(pt_prev, m_prev, cur as int, hi as int, framed);
                assert(!pt_prev.is_mapped(m_prev, cur)) by {
                    assert(pt_prev.spec_resolve(m_prev, cur) == pt_0.spec_resolve(m0, cur));
                    assert(!pt_0.is_mapped(m0, cur));
                }
                if framed {
                    assert(!a_prev.has_frame(cur as int)) by {
                        if a_prev.has_frame(cur as int) {
                            let k = a_prev.frame_index_of(cur as int);
                            assert(a_prev.frames_seq()[k].0.0 == cur);
                        }
                    }
                }
            }
            self.map_one(page_table, mem, VirtPageNum(cur));
            proof {
                lemma_area_map_step(
                    a_0,
                    a_prev,
                    *self,
                    pt_0,
                    pt_prev,
                    *page_table,
                    m0,
                    m_prev,
                    *mem,
                    cur,
                );
            }
            cur = cur + 1;
        }
        proof {
            assert(self.mapped_in(*page_table, *mem)) by {
                assert forall|v: int|
                    self.lo() <= v < self.hi() implies ((#[trigger] page_table.spec_resolve(
                    *mem,
                    v as u64,
                )) matches Some(e) && e.spec_ppn() == self.spec_target(v) && e.spec_flags()
                    == flags_with_valid(self.perm().spec_pte_flags())) by {}
            }
        }
    }
}

/// One step of the area-mapping loop keeps every invariant about the pages
/// already handled: their translations, their frame lookups, and the
/// untouched translations outside the handled prefix.
#[verifier::rlimit(100)]
#[verifier::spinoff_prover]
proof fn lemma_area_map_step(
    a_0: MapArea,
    a_prev: MapArea,
    a_now: MapArea,
    pt_0: PageTable,
    pt_prev: PageTable,
    pt_now: PageTable,
    m0: PhysMem,
    m_prev: PhysMem,
    m_now: PhysMem,
    cur: u64,
)
    requires
        a_0.lo() <= cur < a_0.hi() <= VPN_BOUND,
        map_loop_inv(a_0, a_prev, pt_0, pt_prev, m0, m_prev, cur as int),
        map_one_post(a_prev, a_now, pt_prev, pt_now, m_prev, m_now, cur),
    ensures
        map_loop_inv(a_0, a_now, pt_0, pt_now, m0, m_now, cur + 1),
{
    let framed = a_0.ty() is Framed;
    assert forall|v: int|
        a_0.lo() <= v < cur + 1 implies ((#[trigger] pt_now.spec_resolve(m_now, v as u64))
        matches Some(e) && e.spec_ppn() == a_now.spec_target(v) && e.spec_flags()
        == flags_with_valid(a_0.perm().spec_pte_flags())) by {
        if v < cur {
            assert(pt_now.spec_resolve(m_now, v as u64) == pt_prev.spec_resolve(
                m_prev,
                v as u64,
            ));
            if framed {
                lemma_frames_extend_stable(a_prev, a_now, v);
                assert(a_now.spec_target(v) == a_prev.spec_target(v));
            } else {
                assert(a_now.spec_target(v) == a_prev.spec_target(v));
            }
        } else {
            if framed {
                let s1 = a_now.frames_seq();
                assert(s1.last().0.0 == cur);
                lemma_frame_ppn_at(a_now, s1.len() - 1);
                assert(a_now.spec_target(v) == s1.last().1.ppn.0);
            }
        }
    }
    assert forall|w: u64|
        w < VPN_BOUND && !(a_0.lo() <= w < cur + 1) implies #[trigger] pt_now.spec_resolve(
        m_now,
        w,
    ) == pt_0.spec_resolve(m0, w) by {
        assert(pt_now.spec_resolve(m_now, w) == pt_prev.spec_resolve(m_prev, w));
    }
    if framed {
        assert forall|v: int| a_0.lo() <= v < cur + 1 implies #[trigger] a_now.has_frame(v) by {
            if v < cur {
                lemma_frames_extend_stable(a_prev, a_now, v);
            } else {
                assert(a_now.frames_seq().last().0.0 == cur);
                lemma_frame_ppn_at(a_now, a_now.frames_seq().len() - 1);
            }
        }
    }
    assert forall|q: u64| m0.is_bytes(q) && m0.live(q) implies #[trigger] m_now.fview(q)
        == m0.fview(q) by {
        assert(m_prev.fview(q) == m0.fview(q));
        assert(m_prev.is_bytes(q) && m_prev.live(q));
        assert(m_now.fview(q) == m_prev.fview(q));
    }
    assert forall|k: int|
        0 <= k < a_now.frames_seq().len() implies !m0.live(
        (#[trigger] a_now.frames_seq()[k]).1.ppn.0,
    ) by {
        if framed && k == a_now.frames_seq().len() - 1 {
            if m0.live(a_now.frames_seq()[k].1.ppn.0) {
                assert(m_prev.live(a_now.frames_seq()[k].1.ppn.0));
            }
        } else {
            assert(a_now.frames_seq()[k] == a_prev.frames_seq()[k]);
        }
    }
    assert forall|k: int|
        0 <= k < a_now.frames_seq().len() implies (#[trigger] a_now.frames_seq()[k]).0.0 < cur
        + 1 by {
        if framed && k == a_now.frames_seq().len() - 1 {
        } else {
            assert(a_now.frames_seq()[k] == a_prev.frames_seq()[k]);
        }
    }
    assert forall|k: int|
        0 <= k < a_now.frames_seq().len() implies #[trigger] m_now.bytes_at(
        a_now.frames_seq()[k].1.ppn.0,
    ) == Seq::new(4096, |i: int| 0u8) by {
        if framed && k == a_now.frames_seq().len() - 1 {
        } else {
            assert(a_now.frames_seq()[k] == a_prev.frames_seq()[k]);
            let fr = a_prev.frames_seq()[k].1.ppn.0;
            assert(m_prev.is_bytes(fr) && m_prev.live(fr));
            assert(m_now.fview(fr) == m_prev.fview(fr));
            assert(m_prev.bytes_at(fr) == Seq::new(4096, |i: int| 0u8));
        }
    }
    lemma_vpn_indices(cur);
    lemma_cost_step(pt_prev, pt_now, m_prev, m_now, cur as int, a_0.hi(), framed);
}

/// The running state of the area-mapping loop: the pages below `cur` are
/// installed with their frames recorded, everything else is untouched, and
/// the arena evolved only by fresh allocations.
pub open spec fn map_loop_inv(
    a_0: MapArea,
    a_now: MapArea,
    pt_0: PageTable,
    pt_now: PageTable,
    m0: PhysMem,
    m_now: PhysMem,
    cur: int,
) -> bool {
    let framed = a_0.ty() is Framed;
    &&& a_0.wf()
    &&& m0.wf()
    &&& pt_0.wf_in(m0)
    &&& a_now.wf()
    &&& a_now.lo() == a_0.lo() && a_now.hi() == a_0.hi() && a_now.ty() == a_0.ty()
        && a_now.perm() == a_0.perm()
    &&& m_now.wf()
    &&& same_extent(m0, m_now)
    &&& pt_now.wf_in(m_now)
    &&& pt_now.nodes_live(m_now)
    &&& pt_now.root() == pt_0.root()
    &&& forall|v: int|
        a_0.lo() <= v < cur ==> ((#[trigger] pt_now.spec_resolve(m_now, v as u64))
            matches Some(e) && e.spec_ppn() == a_now.spec_target(v) && e.spec_flags()
            == flags_with_valid(a_0.perm().spec_pte_flags()))
    &&& (framed ==> forall|v: int| a_0.lo() <= v < cur ==> #[trigger] a_now.has_frame(v))
    &&& (framed ==> a_now.frames_seq().len() == cur - a_0.lo())
    &&& (!framed ==> a_now.frames_seq().len() == 0)
    &&& forall|w: u64|
        w < VPN_BOUND && !(a_0.lo() <= w < cur) ==> #[trigger] pt_now.spec_resolve(m_now, w)
            == pt_0.spec_resolve(m0, w)
    &&& forall|v: int|
        a_0.lo() <= v < a_0.hi() ==> !#[trigger] pt_0.is_mapped(m0, v as u64)
    &&& forall|k: int|
        0 <= k < a_now.frames_seq().len() ==> (#[trigger] a_now.frames_seq()[k]).0.0 < cur
    &&& a_now.frames_wf(m_now)
    &&& forall|q: u64| m0.live(q) ==> #[trigger] m_now.live(q)
    &&& forall|q: u64|
        m0.is_bytes(q) && m0.live(q) ==> #[trigger] m_now.fview(q) == m0.fview(q)
    &&& forall|k: int|
        0 <= k < a_now.frames_seq().len() ==> !m0.live((#[trigger] a_now.frames_seq()[k]).1.ppn.0)
    &&& forall|k: int|
        0 <= k < a_now.frames_seq().len() ==> #[trigger] m_now.bytes_at(
            a_now.frames_seq()[k].1.ppn.0,
        ) == Seq::new(4096, |i: int| 0u8)
    &&& m0.free_count() >= a_0.area_cost()
    &&& m_now.free_count() >= m0.free_count() - a_0.area_cost() + cost_rem(
        pt_now,
        m_now,
        cur,
        a_0.hi(),
        a_0.ty() is Framed,
    )
    &&& m_now.alloc_state().top() == m0.alloc_state().top()
}

/// What unmapping one page of an area guarantees: exactly that page stops
/// resolving, a framed area returns the page's frame to the allocator, and
/// no data frame's contents change.
pub open spec fn unmap_one_post(
    a0: MapArea,
    a1: MapArea,
    pt0: PageTable,
    pt1: PageTable,
    m0: PhysMem,
    m2: PhysMem,
    vpnv: u64,
) -> bool {
    &&& a1.wf()
    &&& a1.lo() == a0.lo() && a1.hi() == a0.hi() && a1.ty() == a0.ty() && a1.perm() == a0.perm()
    &&& pt1.root() == pt0.root()
    &&& m2.wf()
    &&& same_extent(m0, m2)
    &&& pt1.wf_in(m2)
    &&& (pt0.nodes_live(m0) ==> pt1.nodes_live(m2))
    &&& pt1.spec_resolve(m2, vpnv) == None::<PageTableEntry>
    &&& forall|w: u64|
        w < VPN_BOUND && w != vpnv ==> #[trigger] pt1.spec_resolve(m2, w) == pt0.spec_resolve(
            m0,
            w,
        )
    &&& if a0.ty() is Framed {
        &&& a1.frames_seq().len() == a0.frames_seq().len() - 1
        &&& !a1.has_frame(vpnv as int)
        &&& forall|v: int|
            v != vpnv ==> (#[trigger] a1.has_frame(v) == a0.has_frame(v)) && (a0.has_frame(v)
                ==> a1.frame_ppn_of(v) == a0.frame_ppn_of(v))
        &&& forall|k: int|
            0 <= k < a1.frames_seq().len() ==> a0.frames_seq().contains(
                #[trigger] a1.frames_seq()[k],
            )
        &&& a0.owns_frame_page(a0.frame_ppn_of(vpnv as int))
        &&& m2.free_count() == m0.free_count() + 1
        &&& forall|q: u64|
            #[trigger] m2.live(q) == (m0.live(q) && q != a0.frame_ppn_of(vpnv as int))
    } else {
        &&& a1.frames_seq() == a0.frames_seq()
        &&& m2.free_count() == m0.free_count()
        &&& forall|q: u64| #[trigger] m2.live(q) == m0.live(q)
    }
    &&& a1.frames_wf(m2)
    &&& forall|q: u64| m0.is_bytes(q) ==> #[trigger] m2.fview(q) == m0.fview(q)
    &&& m2.alloc_state().top() == m0.alloc_state().top()
}

impl MapArea {
    /// The position of the owned frame for page `vpn` in the frame list.
    fn find_frame_index(&self, vpn: VirtPageNum) -> (r: Option<usize>)
        ensures
            match r {
                Some(k) => 0 <= k < self.frames_seq().len() && self.frames_seq()[k as int].0.0
                    == vpn.0,
                None => !self.has_frame(vpn.0 as int),
            },
    {
        let n = self.data_frames.len();
        let mut k: usize = 0;
        while k < n
            invariant
                k <= n == self.frames_seq().len(),
                forall|j: int| 0 <= j < k ==> (#[trigger] self.frames_seq()[j]).0.0 != vpn.0,
            decreases n - k,
        {
            if self.data_frames[k].0.0 == vpn.0 {
                return Some(k);
            }
            k = k + 1;
        }
        None
    }

    /// Removes the translation for one page of the area; a framed area also
    /// drops the page's owned frame, which returns it to the allocator.
    #[verifier::rlimit(100)]
    #[verifier::spinoff_prover]
    pub fn unmap_one(&mut self, page_table: &mut PageTable, mem: &mut PhysMem, vpn: VirtPageNum)
        requires
            old(self).wf(),
            old(mem).wf(),
            old(page_table).wf_in(*old(mem)),
            old(self).lo() <= vpn.0 < old(self).hi(),
            old(page_table).is_mapped(*old(mem), vpn.0),
            old(self).frames_wf(*old(mem)),
            old(self).ty() is Framed ==> old(self).has_frame(vpn.0 as int),
        ensures
            unmap_one_post(
                *old(self),
                *final(self),
                *old(page_table),
                *final(page_table),
                *old(mem),
                *final(mem),
                vpn.0,
            ),
    {
        let ghost m0 = *old(mem);
        let ghost pt0 = *old(page_table);
        let ghost a0 = *old(self);
        let is_framed = match self.map_type {
            MapType::Framed => true,
            _ => false,
        };
        if is_framed {
            let idx = match self.find_frame_index(vpn) {
                Some(k) => k,
                None => {
                    proof {
                        assert(false);
                    }
                    0
                },
            };
            let ghost k = idx as int;
            let pair = self.data_frames.remove(idx);
            proof {
                lemma_frame_ppn_at(a0, k);
                assert(pair.1.ppn.0 == a0.frame_ppn_of(vpn.0 as int));
                assert(m0.live(pair.1.ppn.0));
            }
            frame_dealloc(mem, pair.1.ppn);
            proof {
                lemma_frame_removed(a0, *self, k, vpn.0 as int);
                assert forall|x: int|
                    0 <= x < self.frames_seq().len() implies a0.frames_seq().contains(
                    #[trigger] self.frames_seq()[x],
                ) by {
                    if x < k {
                        assert(self.frames_seq()[x] == a0.frames_seq()[x]);
                    } else {
                        assert(self.frames_seq()[x] == a0.frames_seq()[x + 1]);
                    }
                }
                assert forall|x: int, l: int|
                    0 <= x < l < self.frames_seq().len() implies (
                #[trigger] self.frames_seq()[x]).1.ppn.0 != (
                #[trigger] self.frames_seq()[l]).1.ppn.0 by {
                    let x0: int = if x < k {
                        x
                    } else {
                        x + 1
                    };
                    let l0: int = if l < k {
                        l
                    } else {
                        l + 1
                    };
                    assert(self.frames_seq()[x] == a0.frames_seq()[x0]);
                    assert(self.frames_seq()[l] == a0.frames_seq()[l0]);
                }
            }
        }
        let ghost m_a = *mem;
        proof {
            if is_framed {
                lemma_dealloc_keeps_walk(pt0, m0, m_a, a0.frame_ppn_of(vpn.0 as int));
            }
            assert(page_table.wf_in(m_a) && page_table.is_mapped(m_a, vpn.0));
        }
        page_table.unmap(mem, vpn);
        proof {
            lemma_unmap_one_assemble(a0, *self, pt0, *page_table, m0, m_a, *mem, vpn.0, is_framed);
        }
    }
}

/// Returning a data frame to the allocator does not touch any frame's
/// contents, so the page-table walk is unchanged and the table's nodes
/// stay live.
#[verifier::rlimit(100)]
proof fn lemma_dealloc_keeps_walk(pt: PageTable, m0: PhysMem, m_a: PhysMem, d: u64)
    requires
        m0.wf(),
        m_a.wf(),
        pt.wf_in(m0),
        same_extent(m0, m_a),
        m0.is_bytes(d),
        crate::frame_allocator::frames_unchanged(m0, m_a),
        forall|q: u64| #[trigger] m_a.live(q) == (m0.live(q) && q != d),
    ensures
        pt.wf_in(m_a),
        pt.nodes_live(m0) ==> pt.nodes_live(m_a),
        forall|w: u64|
            w < VPN_BOUND ==> #[trigger] pt.spec_resolve(m_a, w) == pt.spec_resolve(m0, w),
        forall|j0: int| 0 <= j0 < 512 ==> #[trigger] pt.has_mid(m_a, j0) == pt.has_mid(m0, j0),
        forall|j0: int, j1: int|
            0 <= j0 < 512 && 0 <= j1 < 512 ==> #[trigger] pt.has_leaf_table(m_a, j0, j1)
                == pt.has_leaf_table(m0, j0, j1),
{
    assert forall|i0: int|
        0 <= i0 < 512 && pt.has_mid(m0, i0) implies m_a.fview(#[trigger] pt.mid(m0, i0))
        == m0.fview(pt.mid(m0, i0)) by {
        assert(m0.is_table(pt.mid(m0, i0)));
    }
    assert forall|i0: int, i1: int|
        0 <= i0 < 512 && 0 <= i1 < 512 && pt.has_leaf_table(m0, i0, i1) implies m_a.fview(
        #[trigger] pt.leaf(m0, i0, i1),
    ) == m0.fview(pt.leaf(m0, i0, i1)) by {
        assert(m0.is_table(pt.leaf(m0, i0, i1)));
    }
    lemma_walk_unchanged(pt, m0, m_a);
    if pt.nodes_live(m0) {
        assert(pt.nodes_live(m_a)) by {
            assert forall|i0: int| 0 <= i0 < 512 && pt.has_mid(m_a, i0) implies m_a.live(
                #[trigger] pt.mid(m_a, i0),
            ) by {
                assert(pt.mid(m_a, i0) == pt.mid(m0, i0));
                assert(m0.live(pt.mid(m0, i0)) && m0.is_table(pt.mid(m0, i0)));
            }
            assert forall|i0: int, i1: int|
                0 <= i0 < 512 && 0 <= i1 < 512 && pt.has_leaf_table(m_a, i0, i1) implies m_a.live(
                #[trigger] pt.leaf(m_a, i0, i1),
            ) by {
                assert(pt.leaf(m_a, i0, i1) == pt.leaf(m0, i0, i1));
                assert(m0.live(pt.leaf(m0, i0, i1)) && m0.is_table(pt.leaf(m0, i0, i1)));
            }
            assert(m0.is_table(pt.root()));
        }
    }
    assert forall|w: u64| w < VPN_BOUND implies #[trigger] pt.spec_resolve(m_a, w)
        == pt.spec_resolve(m0, w) by {
        assert(pt.spec_translate(m_a, w) == pt.spec_translate(m0, w));
    }
}

/// Assembles the guarantee of unmapping one page from the frame-drop step
/// and the page-table step.
#[verifier::rlimit(100)]
#[verifier::spinoff_prover]
proof fn lemma_unmap_one_assemble(
    a0: MapArea,
    a1: MapArea,
    pt0: PageTable,
    pt1: PageTable,
    m0: PhysMem,
    m_a: PhysMem,
    m2: PhysMem,
    vpnv: u64,
    is_framed: bool,
)
    requires
        a0.wf(),
        m0.wf(),
        m_a.wf(),
        pt0.wf_in(m0),
        a0.lo() <= vpnv < a0.hi(),
        a0.frames_wf(m0),
        is_framed == (a0.ty() is Framed),
        pt0.wf_in(m_a),
        pt0.is_mapped(m_a, vpnv),
        vpnv < VPN_BOUND,
        unmap_post(pt0, pt1, m_a, m2, vpnv),
        a1.lo() == a0.lo() && a1.hi() == a0.hi() && a1.ty() == a0.ty() && a1.perm() == a0.perm(),
        if is_framed {
            &&& a0.has_frame(vpnv as int)
            &&& a1.wf()
            &&& !a1.has_frame(vpnv as int)
            &&& a1.frames_seq().len() == a0.frames_seq().len() - 1
            &&& (forall|v: int|
                v != vpnv ==> (#[trigger] a1.has_frame(v) == a0.has_frame(v)) && (a0.has_frame(v)
                    ==> a1.frame_ppn_of(v) == a0.frame_ppn_of(v)))
            &&& (forall|k: int|
                0 <= k < a1.frames_seq().len() ==> a0.frames_seq().contains(
                    #[trigger] a1.frames_seq()[k],
                ))
            &&& same_extent(m0, m_a)
            &&& crate::frame_allocator::frames_unchanged(m0, m_a)
            &&& m0.is_bytes(a0.frame_ppn_of(vpnv as int))
            &&& (forall|q: u64|
                #[trigger] m_a.live(q) == (m0.live(q) && q != a0.frame_ppn_of(vpnv as int)))
            &&& m_a.free_count() == m0.free_count() + 1
            &&& m_a.alloc_state().top() == m0.alloc_state().top()
            &&& (forall|x: int, l: int|
                0 <= x < l < a1.frames_seq().len() ==> (#[trigger] a1.frames_seq()[x]).1.ppn.0
                    != (#[trigger] a1.frames_seq()[l]).1.ppn.0)
            &&& pt0.nodes_live(m0) ==> pt0.nodes_live(m_a)
            &&& (forall|w: u64|
                w < VPN_BOUND ==> #[trigger] pt0.spec_resolve(m_a, w) == pt0.spec_resolve(m0, w))
        } else {
            &&& a1 == a0
            &&& m_a == m0
        },
    ensures
        unmap_one_post(a0, a1, pt0, pt1, m0, m2, vpnv),
{
    reveal(PageTable::spec_translate);
    lemma_vpn_indices(vpnv);
    let i0 = vpn_i0(vpnv as int);
    let i1 = vpn_i1(vpnv as int);
    let leafp = pt0.leaf(m_a, i0, i1);
    assert forall|q: u64| m0.is_bytes(q) implies #[trigger] m2.fview(q) == m0.fview(q) by {
        assert(m_a.fview(q) == m0.fview(q));
        assert(q != leafp) by {
            assert(pt0.has_leaf_table(m_a, i0, i1));
            assert(m_a.is_table(leafp));
            assert(m_a.is_bytes(q));
        }
        assert(m2.fview(q) == m_a.fview(q));
    }
    assert forall|w: u64|
        w < VPN_BOUND && w != vpnv implies #[trigger] pt1.spec_resolve(m2, w)
        == pt0.spec_resolve(m0, w) by {
        assert(pt1.spec_resolve(m2, w) == pt0.spec_resolve(m_a, w));
    }
    assert(a1.frames_wf(m2)) by {
        assert forall|x: int| 0 <= x < a1.frames_seq().len() implies m2.live(
            (#[trigger] a1.frames_seq()[x]).1.ppn.0,
        ) && m2.is_bytes(a1.frames_seq()[x].1.ppn.0) by {
            if is_framed {
                assert(a0.frames_seq().contains(a1.frames_seq()[x]));
                let j = choose|j: int|
                    0 <= j < a0.frames_seq().len() && a0.frames_seq()[j] == a1.frames_seq()[x];
                assert(m0.live(a0.frames_seq()[j].1.ppn.0) && m0.is_bytes(
                    a0.frames_seq()[j].1.ppn.0,
                ));
                assert(a1.frames_seq()[x].1.ppn.0 != a0.frame_ppn_of(vpnv as int)) by {
                    let key = a1.frames_seq()[x].0.0 as int;
                    lemma_frame_ppn_at(a1, x);
                    if key == vpnv {
                        assert(a1.has_frame(vpnv as int));
                    } else {
                        assert(a1.frame_ppn_of(key) == a0.frame_ppn_of(key));
                        let kk = a0.frame_index_of(vpnv as int);
                        let jj = a0.frame_index_of(key);
                        assert(a0.frames_seq()[kk].0.0 == vpnv);
                        assert(a0.frames_seq()[jj].0.0 == key);
                        assert(jj != kk);
                        assert(a0.frames_seq()[jj].1.ppn.0 != a0.frames_seq()[kk].1.ppn.0);
                        assert(a1.frames_seq()[x].1.ppn.0 == a1.frame_ppn_of(key));
                    }
                }
                assert(m_a.live(a1.frames_seq()[x].1.ppn.0));
                assert(m2.fview(a1.frames_seq()[x].1.ppn.0) == m0.fview(
                    a1.frames_seq()[x].1.ppn.0,
                ));
            } else {
                assert(m0.live(a0.frames_seq()[x].1.ppn.0) && m0.is_bytes(
                    a0.frames_seq()[x].1.ppn.0,
                ));
                assert(m2.fview(a0.frames_seq()[x].1.ppn.0) == m0.fview(
                    a0.frames_seq()[x].1.ppn.0,
                ));
            }
        }
        assert forall|x: int, l: int|
            0 <= x < l < a1.frames_seq().len() implies (#[trigger] a1.frames_seq()[x]).1.ppn.0
            != (#[trigger] a1.frames_seq()[l]).1.ppn.0 by {
            if !is_framed {
                assert(a1.frames_seq()[x] == a0.frames_seq()[x]);
            }
        }
    }
    if a0.ty() is Framed {
        assert(a1.frames_seq().len() == a0.frames_seq().len() - 1);
        assert(!a1.has_frame(vpnv as int));
        assert(m2.free_count() == m0.free_count() + 1);
        assert(forall|q: u64|
            #[trigger] m2.live(q) == (m0.live(q) && q != a0.frame_ppn_of(vpnv as int)));
        assert(a0.owns_frame_page(a0.frame_ppn_of(vpnv as int))) by {
            let x = a0.frame_index_of(vpnv as int);
            assert(a0.frames_seq()[x].1.ppn.0 == a0.frame_ppn_of(vpnv as int));
        }
    } else {
        assert(a1.frames_seq() == a0.frames_seq());
        assert(m2.free_count() == m0.free_count());
        assert(forall|q: u64| #[trigger] m2.live(q) == m0.live(q));
    }
    assert(unmap_one_post(a0, a1, pt0, pt1, m0, m2, vpnv));
}

/// Removing the frame-list entry at position `k` (the one for page `v`)
/// keeps the list well formed and leaves every other page's lookup intact.
#[verifier::rlimit(100)]
proof fn lemma_frame_removed(a0: MapArea, a1: MapArea, k: int, v: int)
    requires
        a0.wf(),
        0 <= k < a0.frames_seq().len(),
        a0.frames_seq()[k].0.0 == v,
        a0.frame_index_of(v) == k,
        a1.frames_seq() == a0.frames_seq().remove(k),
        a1.lo() == a0.lo() && a1.hi() == a0.hi() && a1.ty() == a0.ty() && a1.perm() == a0.perm(),
    ensures
        a1.wf(),
        !a1.has_frame(v),
        forall|w: int|
            w != v ==> (#[trigger] a1.has_frame(w) == a0.has_frame(w)) && (a0.has_frame(w)
                ==> a1.frame_ppn_of(w) == a0.frame_ppn_of(w)),
{
    let s0 = a0.frames_seq();
    let s1 = a1.frames_seq();
    assert(s1.len() == s0.len() - 1);
    assert forall|x: int| 0 <= x < s1.len() implies #[trigger] s1[x] == (if x < k {
        s0[x]
    } else {
        s0[x + 1]
    }) by {}
    assert(a1.wf()) by {
        assert forall|x: int, l: int|
            0 <= x < l < s1.len() implies (#[trigger] s1[x]).0.0 != (#[trigger] s1[l]).0.0 by {
            let x0: int = if x < k {
                x
            } else {
                x + 1
            };
            let l0: int = if l < k {
                l
            } else {
                l + 1
            };
            assert(s1[x] == s0[x0] && s1[l] == s0[l0]);
        }
        assert forall|x: int| 0 <= x < s1.len() implies a1.lo() <= (#[trigger] s1[x]).0.0
            < a1.hi() by {
            let x0: int = if x < k {
                x
            } else {
                x + 1
            };
            assert(s1[x] == s0[x0]);
        }
    }
    assert(!a1.has_frame(v)) by {
        if a1.has_frame(v) {
            let x = a1.frame_index_of(v);
            let x0: int = if x < k {
                x
            } else {
                x + 1
            };
            assert(s1[x] == s0[x0]);
            assert(s0[x0].0.0 == v && x0 != k);
            assert(s0[k].0.0 == v);
        }
    }
    assert forall|w: int|
        w != v implies (#[trigger] a1.has_frame(w) == a0.has_frame(w)) && (a0.has_frame(w)
        ==> a1.frame_ppn_of(w) == a0.frame_ppn_of(w)) by {
        if a0.has_frame(w) {
            let x0 = a0.frame_index_of(w);
            assert(s0[x0].0.0 == w);
            assert(x0 != k);
            let x1: int = if x0 < k {
                x0
            } else {
                x0 - 1
            };
            assert(s1[x1] == s0[x0]);
            assert(a1.has_frame(w));
            let y = a1.frame_index_of(w);
            if y != x1 {
                let y0: int = if y < k {
                    y
                } else {
                    y + 1
                };
                assert(s1[y] == s0[y0]);
                assert(s0[y0].0.0 == w && s0[x0].0.0 == w);
                if y0 != x0 {
                    assert(false);
                }
            }
        }
        if a1.has_frame(w) {
            let y = a1.frame_index_of(w);
            let y0: int = if y < k {
                y
            } else {
                y + 1
            };
            assert(s1[y] == s0[y0]);
            assert(a0.has_frame(w));
        }
    }
}

impl MapArea {
    /// Removes every translation of the area, dropping the owned frames of
    /// a framed area back to the allocator.
    #[verifier::rlimit(100)]
    #[verifier::spinoff_prover]
    pub fn unmap(&mut self, page_table: &mut PageTable, mem: &mut PhysMem)
        requires
            old(self).wf(),
            old(mem).wf(),
            old(page_table).wf_in(*old(mem)),
            old(page_table).nodes_live(*old(mem)),
            old(self).frames_wf(*old(mem)),
            old(self).mapped_in(*old(page_table), *old(mem)),
        ensures
            final(self).wf(),
            final(self).lo() == old(self).lo(),
            final(self).hi() == old(self).hi(),
            final(self).ty() == old(self).ty(),
            final(self).perm() == old(self).perm(),
            final(self).frames_seq().len() == 0,
            final(mem).wf(),
            same_extent(*old(mem), *final(mem)),
            final(page_table).root() == old(page_table).root(),
            final(page_table).wf_in(*final(mem)),
            final(page_table).nodes_live(*final(mem)),
            forall|v: int|
                old(self).lo() <= v < old(self).hi()
                    ==> #[trigger] final(page_table).spec_resolve(*final(mem), v as u64)
                    == None::<PageTableEntry>,
            forall|w: u64|
                w < VPN_BOUND && !(old(self).lo() <= w < old(self).hi())
                    ==> #[trigger] final(page_table).spec_resolve(*final(mem), w)
                    == old(page_table).spec_resolve(*old(mem), w),
            forall|q: u64|
                old(mem).is_bytes(q) ==> #[trigger] final(mem).fview(q) == old(mem).fview(q),
            forall|q: u64|
                #[trigger] final(mem).live(q) == (old(mem).live(q) && !old(self).owns_frame_page(
                    q,
                )),
            final(mem).free_count() == old(mem).free_count() + old(self).frames_seq().len(),
            final(mem).alloc_state().top() == old(mem).alloc_state().top(),
    {
        let ghost m0 = *old(mem);
        let ghost pt_0 = *old(page_table);
        let ghost a_0 = *old(self);
        let start = self.vpn_range.get_start();
        let end = self.vpn_range.get_end();
        let mut cur: u64 = start.0;
        let hi: u64 = end.0;
        while cur < hi
            invariant
                a_0.wf(),
                a_0.lo() <= cur <= hi == a_0.hi(),
                self.wf(),
                self.lo() == a_0.lo() && self.hi() == a_0.hi() && self.ty() == a_0.ty()
                    && self.perm() == a_0.perm(),
                mem.wf(),
                same_extent(m0, *mem),
                page_table.wf_in(*mem),
                page_table.nodes_live(*mem),
                page_table.root() == pt_0.root(),
                self.frames_wf(*mem),
                forall|v: int|
                    a_0.lo() <= v < cur ==> #[trigger] page_table.spec_resolve(*mem, v as u64)
                        == None::<PageTableEntry>,
                forall|w: u64|
                    w < VPN_BOUND && !(a_0.lo() <= w < cur) ==> #[trigger] page_table.spec_resolve(
                        *mem,
                        w,
                    ) == pt_0.spec_resolve(m0, w),
                forall|v: int|
                    cur <= v < a_0.hi() ==> ((#[trigger] page_table.spec_resolve(*mem, v as u64))
                        is Some),
                a_0.ty() is Framed ==> forall|v: int|
                    cur <= v < a_0.hi() ==> #[trigger] self.has_frame(v) && self.frame_ppn_of(v)
                        == a_0.frame_ppn_of(v),
                forall|k: int|
                    0 <= k < self.frames_seq().len() ==> (#[trigger] self.frames_seq()[k]).0.0
                        >= cur,
                forall|k: int|
                    0 <= k < self.frames_seq().len() ==> a_0.frames_seq().contains(
                        #[trigger] self.frames_seq()[k],
                    ),
                forall|q: u64|
                    m0.is_bytes(q) ==> #[trigger] mem.fview(q) == m0.fview(q),
                forall|q: u64|
                    #[trigger] mem.live(q) == (m0.live(q) && !a_0.owns_frame_page_below(
                        q,
                        cur as int,
                    )),
                mem.free_count() == m0.free_count() + (if a_0.ty() is Framed {
                    cur - a_0.lo()
                } else {
                    0int
                }),
                mem.alloc_state().top() == m0.alloc_state().top(),
            decreases hi - cur,
        {
            let ghost m_prev = *mem;
            let ghost pt_prev = *page_table;
            let ghost a_prev = *self;
            proof {
                let vi: int = cur as int;
                assert(page_table.spec_resolve(*mem, vi as u64) is Some);
                assert(vi as u64 == cur);
            }
            self.unmap_one(page_table, mem, VirtPageNum(cur));
            proof {
                lemma_unmap_resolve_step(
                    pt_0,
                    pt_prev,
                    *page_table,
                    m0,
                    m_prev,
                    *mem,
                    a_0.lo(),
                    a_0.hi(),
                    cur,
                );
                lemma_unmap_live_step(a_0, a_prev, m0, m_prev, *mem, cur);
                lemma_unmap_frames_step(a_0, a_prev, *self, cur);
            }
            cur = cur + 1;
        }
        proof {
            if self.frames_seq().len() > 0 {
                assert(self.frames_seq()[0].0.0 >= hi);
                assert(self.frames_seq()[0].0.0 < self.hi());
            }
            assert forall|q: u64|
                #[trigger] mem.live(q) == (m0.live(q) && !a_0.owns_frame_page(q)) by {
                assert(a_0.owns_frame_page_below(q, hi as int) == a_0.owns_frame_page(q)) by {
                    if a_0.owns_frame_page(q) {
                        let k = choose|k: int|
                            0 <= k < a_0.frames_seq().len() && (
                            #[trigger] a_0.frames_seq()[k]).1.ppn.0 == q;
                        assert(a_0.frames_seq()[k].0.0 < a_0.hi());
                    }
                }
            }
            if a_0.ty() is Framed {
                assert(a_0.frames_seq().len() == a_0.hi() - a_0.lo());
            } else {
                assert(a_0.frames_seq().len() == 0);
            }
        }
    }
}


/// One step of the area-unmapping loop keeps the frame bookkeeping: the
/// surviving entries are entries the area started with, their keys now all
/// lie at or above the next page, and every remaining page still finds its
/// original frame.
#[verifier::rlimit(100)]
#[verifier::spinoff_prover]
proof fn lemma_unmap_frames_step(a_0: MapArea, a_prev: MapArea, a_now: MapArea, cur: u64)
    requires
        a_0.wf(),
        a_0.lo() <= cur < a_0.hi(),
        a_prev.ty() == a_0.ty(),
        a_now.ty() == a_prev.ty(),
        a_now.wf(),
        if a_prev.ty() is Framed {
            &&& !a_now.has_frame(cur as int)
            &&& forall|v: int|
                v != cur ==> (#[trigger] a_now.has_frame(v) == a_prev.has_frame(v)) && (
                a_prev.has_frame(v) ==> a_now.frame_ppn_of(v) == a_prev.frame_ppn_of(v))
            &&& forall|k: int|
                0 <= k < a_now.frames_seq().len() ==> a_prev.frames_seq().contains(
                    #[trigger] a_now.frames_seq()[k],
                )
        } else {
            a_now.frames_seq() == a_prev.frames_seq()
        },
        a_0.ty() is Framed ==> forall|v: int|
            cur <= v < a_0.hi() ==> #[trigger] a_prev.has_frame(v) && a_prev.frame_ppn_of(v)
                == a_0.frame_ppn_of(v),
        forall|k: int|
            0 <= k < a_prev.frames_seq().len() ==> (#[trigger] a_prev.frames_seq()[k]).0.0 >= cur,
        forall|k: int|
            0 <= k < a_prev.frames_seq().len() ==> a_0.frames_seq().contains(
                #[trigger] a_prev.frames_seq()[k],
            ),
    ensures
        a_0.ty() is Framed ==> forall|v: int|
            cur + 1 <= v < a_0.hi() ==> #[trigger] a_now.has_frame(v) && a_now.frame_ppn_of(v)
                == a_0.frame_ppn_of(v),
        forall|k: int|
            0 <= k < a_now.frames_seq().len() ==> (#[trigger] a_now.frames_seq()[k]).0.0 >= cur
                + 1,
        forall|k: int|
            0 <= k < a_now.frames_seq().len() ==> a_0.frames_seq().contains(
                #[trigger] a_now.frames_seq()[k],
            ),
{
    if a_0.ty() is Framed {
        assert forall|v: int|
            cur + 1 <= v < a_0.hi() implies #[trigger] a_now.has_frame(v) && a_now.frame_ppn_of(v)
            == a_0.frame_ppn_of(v) by {
            assert(a_prev.has_frame(v));
            assert(a_now.has_frame(v) == a_prev.has_frame(v));
            assert(a_now.frame_ppn_of(v) == a_prev.frame_ppn_of(v));
        }
    }
    assert forall|k: int|
        0 <= k < a_now.frames_seq().len() implies a_0.frames_seq().contains(
        #[trigger] a_now.frames_seq()[k],
    ) by {
        if a_0.ty() is Framed {
            assert(a_prev.frames_seq().contains(a_now.frames_seq()[k]));
            let j = choose|j: int|
                0 <= j < a_prev.frames_seq().len() && a_prev.frames_seq()[j]
                    == a_now.frames_seq()[k];
            assert(a_0.frames_seq().contains(a_prev.frames_seq()[j]));
        } else {
            assert(a_now.frames_seq()[k] == a_prev.frames_seq()[k]);
        }
    }
    assert forall|k: int|
        0 <= k < a_now.frames_seq().len() implies (#[trigger] a_now.frames_seq()[k]).0.0 >= cur
        + 1 by {
        let w = a_now.frames_seq()[k].0.0;
        lemma_frame_ppn_at(a_now, k);
        assert(a_now.has_frame(w as int));
        if w == cur {
            if a_now.ty() is Framed {
                assert(!a_now.has_frame(cur as int));
            } else {
                assert(a_now.frames_seq().len() == 0);
            }
        } else if w < cur {
            assert(a_prev.has_frame(w as int));
            let j = a_prev.frame_index_of(w as int);
            assert(a_prev.frames_seq()[j].0.0 == w);
        }
    }
}

impl MapArea {
    /// Copies initial data into a framed area that has already been mapped:
    /// the bytes are split into page-sized chunks in address order, each
    /// chunk resolved to its frame through the installed page table and
    /// written there. Bytes of the last page beyond the data keep their
    /// zero fill.
    #[verifier::rlimit(100)]
    #[verifier::spinoff_prover]
    pub fn copy_data(&mut self, page_table: &PageTable, mem: &mut PhysMem, data: &[u8])
        requires
            old(self).wf(),
            old(mem).wf(),
            page_table.wf_in(*old(mem)),
            old(self).ty() is Framed,
            old(self).lo() < old(self).hi(),
            old(self).frames_wf(*old(mem)),
            old(self).mapped_in(*page_table, *old(mem)),
            data@.len() <= (old(self).hi() - old(self).lo()) * 4096,
        ensures
            *final(self) == *old(self),
            final(mem).wf(),
            same_extent(*old(mem), *final(mem)),
            forall|i: int|
                0 <= i < data@.len() ==> #[trigger] final(mem).bytes_at(
                    old(self).frame_ppn_of(old(self).lo() + i / 4096),
                )[i % 4096] == data@[i],
            forall|k: int, j: int|
                0 <= k < old(self).hi() - old(self).lo() && 0 <= j < 4096 && k * 4096 + j
                    >= data@.len() ==> #[trigger] final(mem).bytes_at(
                    old(self).frame_ppn_of(old(self).lo() + k),
                )[j] == old(mem).bytes_at(old(self).frame_ppn_of(old(self).lo() + k))[j],
            forall|q: u64|
                old(mem).in_range(q) && !old(self).owns_frame_page(q)
                    ==> #[trigger] final(mem).fview(q) == old(mem).fview(q),
            old(self).frames_wf(*final(mem)),
            forall|q: u64| #[trigger] final(mem).live(q) == old(mem).live(q),
            final(mem).free_count() == old(mem).free_count(),
            final(mem).alloc_state().top() == old(mem).alloc_state().top(),
    {
        let ghost m0 = *old(mem);
        let ghost a0 = *old(self);
        let len: usize = data.len();
        let start_vpn = self.vpn_range.get_start();
        let pages: usize = if len == 0 {
            1
        } else {
            (len - 1) / 4096 + 1
        };
        proof {
            assert(pages <= a0.hi() - a0.lo()) by {
                if len > 0 {
                    lemma_fundamental_div_mod(len - 1, 4096);
                }
            }
        }
        let mut k: usize = 0;
        while k < pages
            invariant
                a0.wf(),
                a0.ty() is Framed,
                a0.lo() < a0.hi() <= VPN_BOUND,
                *self == a0,
                data@.len() == len,
                1 <= pages <= a0.hi() - a0.lo(),
                len > 0 ==> pages == (len - 1) / 4096 + 1,
                len == 0 ==> pages == 1,
                len <= pages * 4096,
                k <= pages,
                start_vpn.0 == a0.lo(),
                mem.wf(),
                same_extent(m0, *mem),
                m0.wf(),
                page_table.wf_in(m0),
                a0.frames_wf(m0),
                a0.mapped_in(*page_table, m0),
                forall|i: int|
                    0 <= i < data@.len() && i < k * 4096 ==> #[trigger] mem.bytes_at(
                        a0.frame_ppn_of(a0.lo() + i / 4096),
                    )[i % 4096] == data@[i],
                forall|kk: int, j: int|
                    0 <= kk < k && 0 <= j < 4096 && kk * 4096 + j >= data@.len()
                        ==> #[trigger] mem.bytes_at(a0.frame_ppn_of(a0.lo() + kk))[j]
                        == m0.bytes_at(a0.frame_ppn_of(a0.lo() + kk))[j],
                forall|q: u64|
                    m0.in_range(q) && !a0.owns_frame_page_below(q, a0.lo() + k)
                        ==> #[trigger] mem.fview(q) == m0.fview(q),
                a0.frames_wf(*mem),
                forall|q: u64| #[trigger] mem.live(q) == m0.live(q),
                mem.free_count() == m0.free_count(),
                mem.alloc_state().cur() == m0.alloc_state().cur(),
                mem.alloc_state().top() == m0.alloc_state().top(),
                mem.alloc_state().pool() == m0.alloc_state().pool(),
            decreases pages - k,
        {
            let vpn = VirtPageNum(start_vpn.0 + k as u64);
            proof {
                assert(a0.lo() <= vpn.0 < a0.hi());
                assert((page_table.spec_resolve(m0, vpn.0)) is Some);
                lemma_copy_walk_same(a0, *page_table, m0, *mem, a0.lo() + k as int);
            }
            let pte = match page_table.translate(mem, vpn) {
                Some(p) => p,
                None => {
                    proof {
                        assert(false);
                    }
                    PageTableEntry(0)
                },
            };
            let fppn = pte.ppn();
            let ghost kf = a0.frame_ppn_of(a0.lo() + k as int);
            proof {
                assert(pte.spec_valid());
                assert(fppn.0 == kf);
                assert(mem.is_bytes(kf)) by {
                    assert(a0.has_frame(a0.lo() + k as int));
                    let x = a0.frame_index_of(a0.lo() + k as int);
                    assert(mem.is_bytes(a0.frames_seq()[x].1.ppn.0));
                }
            }
            proof {
                if len > 0 {
                    lemma_fundamental_div_mod(len - 1, 4096);
                    assert(k * 4096 <= len - 1) by (nonlinear_arith)
                        requires
                            k <= (len - 1) / 4096,
                            4096 * ((len - 1) / 4096) + (len - 1) % 4096 == len - 1,
                            (len - 1) % 4096 >= 0,
                    ;
                } else {
                    assert(k == 0);
                }
            }
            let page_start: usize = k * 4096;
            let chunk_end: usize = if len - page_start < 4096 {
                len
            } else {
                page_start + 4096
            };
            let ghost mem_k = *mem;
            let mut j: usize = page_start;
            while j < chunk_end
                invariant
                    fppn.0 == kf,
                    page_start == k * 4096,
                    page_start <= j <= chunk_end <= len == data@.len(),
                    chunk_end <= page_start + 4096,
                    mem.wf(),
                    same_extent(mem_k, *mem),
                    mem_k.is_bytes(kf),
                    mem.is_bytes(kf),
                    forall|jj: int|
                        page_start <= jj < j ==> #[trigger] mem.bytes_at(kf)[jj - page_start]
                            == data@[jj],
                    forall|jj: int|
                        j - page_start <= jj < 4096 ==> #[trigger] mem.bytes_at(kf)[jj]
                            == mem_k.bytes_at(kf)[jj],
                    forall|q: u64|
                        mem_k.in_range(q) && q != kf ==> #[trigger] mem.fview(q) == mem_k.fview(
                            q,
                        ),
                    forall|q: u64| #[trigger] mem.live(q) == mem_k.live(q),
                    mem.free_count() == mem_k.free_count(),
                    mem.alloc_state().cur() == mem_k.alloc_state().cur(),
                    mem.alloc_state().top() == mem_k.alloc_state().top(),
                    mem.alloc_state().pool() == mem_k.alloc_state().pool(),
                decreases chunk_end - j,
            {
                mem.write_byte(PhysPageNum(fppn.0), j - page_start, data[j]);
                j = j + 1;
            }
            proof {
                lemma_copy_page_step(a0, m0, mem_k, *mem, k as int, chunk_end as int, data@);
                assert forall|x: int| 0 <= x < a0.frames_seq().len() implies mem.live(
                    (#[trigger] a0.frames_seq()[x]).1.ppn.0,
                ) && mem.is_bytes(a0.frames_seq()[x].1.ppn.0) by {
                    if a0.frames_seq()[x].1.ppn.0 != kf {
                        assert(mem.fview(a0.frames_seq()[x].1.ppn.0) == mem_k.fview(
                            a0.frames_seq()[x].1.ppn.0,
                        ));
                        assert(mem_k.is_bytes(a0.frames_seq()[x].1.ppn.0) && mem_k.live(
                            a0.frames_seq()[x].1.ppn.0,
                        ));
                    }
                }
            }
            k = k + 1;
        }
        proof {
            assert forall|q: u64|
                m0.in_range(q) && !a0.owns_frame_page(q) implies #[trigger] mem.fview(q)
                == m0.fview(q) by {
                assert(!a0.owns_frame_page_below(q, a0.lo() + pages as int));
            }
            assert forall|kk: int, j: int|
                0 <= kk < a0.hi() - a0.lo() && 0 <= j < 4096 && kk * 4096 + j >= data@.len()
                    implies #[trigger] mem.bytes_at(a0.frame_ppn_of(a0.lo() + kk))[j]
                == m0.bytes_at(a0.frame_ppn_of(a0.lo() + kk))[j] by {
                if kk >= pages {
                    assert(a0.has_frame(a0.lo() + kk));
                    let fr = a0.frame_ppn_of(a0.lo() + kk);
                    assert(!a0.owns_frame_page_below(fr, a0.lo() + pages as int)) by {
                        if a0.owns_frame_page_below(fr, a0.lo() + pages as int) {
                            let x = choose|x: int|
                                0 <= x < a0.frames_seq().len() && (
                                #[trigger] a0.frames_seq()[x]).1.ppn.0 == fr
                                    && a0.frames_seq()[x].0.0 < a0.lo() + pages;
                            lemma_frame_ppn_at(a0, x);
                            lemma_distinct_page_frames(
                                a0,
                                a0.frames_seq()[x].0.0 as int,
                                a0.lo() + kk,
                            );
                        }
                    }
                    assert(m0.in_range(fr)) by {
                        lemma_frame_in_range(a0, m0, a0.lo() + kk);
                    }
                    assert(mem.fview(fr) == m0.fview(fr));
                }
            }
        }
    }

    /// Whether page `q` is one of the area's owned frames.
    pub open spec fn owns_frame_page(self, q: u64) -> bool {
        exists|x: int|
            0 <= x < self.frames_seq().len() && (#[trigger] self.frames_seq()[x]).1.ppn.0 == q
    }

    /// Whether page `q` is among the first `upto` entries of the frame
    /// list.
    pub open spec fn owns_frame_among(self, upto: int, q: u64) -> bool {
        exists|k: int|
            0 <= k < upto && k < self.frames_seq().len() && (
            #[trigger] self.frames_seq()[k]).1.ppn.0 == q
    }

    /// Whether page `q` is an owned frame of a page below `bound`.
    pub open spec fn owns_frame_page_below(self, q: u64, bound: int) -> bool {
        exists|x: int|
            0 <= x < self.frames_seq().len() && (#[trigger] self.frames_seq()[x]).1.ppn.0 == q
                && self.frames_seq()[x].0.0 < bound
    }
}

/// The page-table walk reads the same during the copy: only data frames of
/// the area change, never a table node.
proof fn lemma_copy_walk_same(a0: MapArea, pt: PageTable, m0: PhysMem, m_now: PhysMem, v: int)
    requires
        a0.wf(),
        m0.wf(),
        m_now.wf(),
        same_extent(m0, m_now),
        pt.wf_in(m0),
        a0.frames_wf(m0),
        forall|q: u64|
            m0.in_range(q) && !a0.owns_frame_page(q) ==> #[trigger] m_now.fview(q) == m0.fview(q),
        forall|q: u64| #[trigger] m_now.live(q) == m0.live(q),
    ensures
        pt.wf_in(m_now),
        forall|w: u64|
            w < VPN_BOUND ==> #[trigger] pt.spec_translate(m_now, w) == pt.spec_translate(m0, w),
        forall|w: u64|
            w < VPN_BOUND ==> #[trigger] pt.spec_resolve(m_now, w) == pt.spec_resolve(m0, w),
        pt.nodes_live(m0) ==> pt.nodes_live(m_now),
{
    assert(m_now.fview(pt.root()) == m0.fview(pt.root())) by {
        lemma_table_not_owned(a0, m0, pt.root());
    }
    assert forall|i0: int|
        0 <= i0 < 512 && pt.has_mid(m0, i0) implies m_now.fview(#[trigger] pt.mid(m0, i0))
        == m0.fview(pt.mid(m0, i0)) by {
        lemma_table_not_owned(a0, m0, pt.mid(m0, i0));
    }
    assert forall|i0: int, i1: int|
        0 <= i0 < 512 && 0 <= i1 < 512 && pt.has_leaf_table(m0, i0, i1) implies m_now.fview(
        #[trigger] pt.leaf(m0, i0, i1),
    ) == m0.fview(pt.leaf(m0, i0, i1)) by {
        lemma_table_not_owned(a0, m0, pt.leaf(m0, i0, i1));
    }
    lemma_walk_unchanged(pt, m0, m_now);
    assert forall|w: u64| w < VPN_BOUND implies #[trigger] pt.spec_resolve(m_now, w)
        == pt.spec_resolve(m0, w) by {
        assert(pt.spec_translate(m_now, w) == pt.spec_translate(m0, w));
    }
    if pt.nodes_live(m0) {
        assert(pt.nodes_live(m_now)) by {
            assert forall|i0: int| 0 <= i0 < 512 && pt.has_mid(m_now, i0) implies m_now.live(
                #[trigger] pt.mid(m_now, i0),
            ) by {
                assert(pt.mid(m_now, i0) == pt.mid(m0, i0));
                assert(m0.live(pt.mid(m0, i0)));
            }
            assert forall|i0: int, i1: int|
                0 <= i0 < 512 && 0 <= i1 < 512 && pt.has_leaf_table(
                    m_now,
                    i0,
                    i1,
                ) implies m_now.live(#[trigger] pt.leaf(m_now, i0, i1)) by {
                assert(pt.leaf(m_now, i0, i1) == pt.leaf(m0, i0, i1));
                assert(m0.live(pt.leaf(m0, i0, i1)));
            }
        }
    }
}

/// A table node is never one of an area's owned data frames.
proof fn lemma_table_not_owned(a0: MapArea, m0: PhysMem, p: u64)
    requires
        a0.frames_wf(m0),
        m0.is_table(p),
    ensures
        !a0.owns_frame_page(p),
{
    if a0.owns_frame_page(p) {
        let x = choose|x: int|
            0 <= x < a0.frames_seq().len() && (#[trigger] a0.frames_seq()[x]).1.ppn.0 == p;
        assert(m0.is_bytes(p));
    }
}

/// After finishing one page of the copy, the whole-copy invariants hold up
/// to the next page.
#[verifier::rlimit(100)]
#[verifier::spinoff_prover]
proof fn lemma_copy_page_step(
    a0: MapArea,
    m0: PhysMem,
    mem_k: PhysMem,
    m_now: PhysMem,
    k: int,
    chunk_end: int,
    data: Seq<u8>,
)
    requires
        a0.wf(),
        a0.ty() is Framed,
        a0.lo() < a0.hi(),
        a0.frames_wf(m0),
        0 <= k < a0.hi() - a0.lo(),
        forall|v: int| a0.lo() <= v < a0.hi() ==> #[trigger] a0.has_frame(v),
        a0.has_frame(a0.lo() + k),
        chunk_end == (if data.len() < k * 4096 + 4096 {
            data.len() as int
        } else {
            k * 4096 + 4096
        }),
        chunk_end >= k * 4096 || data.len() <= k * 4096,
        same_extent(m0, mem_k),
        same_extent(mem_k, m_now),
        // the invariants that held before this page
        forall|i: int|
            0 <= i < data.len() && i < k * 4096 ==> #[trigger] mem_k.bytes_at(
                a0.frame_ppn_of(a0.lo() + i / 4096),
            )[i % 4096] == data[i],
        forall|kk: int, j: int|
            0 <= kk < k && 0 <= j < 4096 && kk * 4096 + j >= data.len() ==> #[trigger] mem_k.bytes_at(
                a0.frame_ppn_of(a0.lo() + kk),
            )[j] == m0.bytes_at(a0.frame_ppn_of(a0.lo() + kk))[j],
        forall|q: u64|
            m0.in_range(q) && !a0.owns_frame_page_below(q, a0.lo() + k) ==> #[trigger] mem_k.fview(
                q,
            ) == m0.fview(q),
        // what the inner loop did to this page's frame
        mem_k.is_bytes(a0.frame_ppn_of(a0.lo() + k)),
        m_now.is_bytes(a0.frame_ppn_of(a0.lo() + k)),
        forall|jj: int|
            k * 4096 <= jj < chunk_end ==> #[trigger] m_now.bytes_at(
                a0.frame_ppn_of(a0.lo() + k),
            )[jj - k * 4096] == data[jj],
        forall|jj: int|
            chunk_end - k * 4096 <= jj < 4096 ==> #[trigger] m_now.bytes_at(
                a0.frame_ppn_of(a0.lo() + k),
            )[jj] == mem_k.bytes_at(a0.frame_ppn_of(a0.lo() + k))[jj],
        forall|q: u64|
            mem_k.in_range(q) && q != a0.frame_ppn_of(a0.lo() + k) ==> #[trigger] m_now.fview(q)
                == mem_k.fview(q),
    ensures
        forall|i: int|
            0 <= i < data.len() && i < (k + 1) * 4096 ==> #[trigger] m_now.bytes_at(
                a0.frame_ppn_of(a0.lo() + i / 4096),
            )[i % 4096] == data[i],
        forall|kk: int, j: int|
            0 <= kk < k + 1 && 0 <= j < 4096 && kk * 4096 + j >= data.len()
                ==> #[trigger] m_now.bytes_at(a0.frame_ppn_of(a0.lo() + kk))[j] == m0.bytes_at(
                a0.frame_ppn_of(a0.lo() + kk),
            )[j],
        forall|q: u64|
            m0.in_range(q) && !a0.owns_frame_page_below(q, a0.lo() + k + 1) ==> #[trigger] m_now.fview(
                q,
            ) == m0.fview(q),
{
    let kf = a0.frame_ppn_of(a0.lo() + k);
    // distinct pages have distinct frames
    assert forall|kk: int| 0 <= kk < k implies #[trigger] a0.frame_ppn_of(a0.lo() + kk) != kf by {
        assert(a0.has_frame(a0.lo() + kk));
        lemma_distinct_page_frames(a0, a0.lo() + kk, a0.lo() + k);
    }
    assert forall|i: int|
        0 <= i < data.len() && i < (k + 1) * 4096 implies #[trigger] m_now.bytes_at(
        a0.frame_ppn_of(a0.lo() + i / 4096),
    )[i % 4096] == data[i] by {
        lemma_fundamental_div_mod(i, 4096);
        if i < k * 4096 {
            assert(i / 4096 < k) by {
                lemma_div_is_ordered(i, k * 4096 - 1, 4096);
                assert((k * 4096 - 1) / 4096 == k - 1) by {
                    lemma_fundamental_div_mod_converse(k * 4096 - 1, 4096, k - 1, 4095);
                }
            }
            assert(a0.frame_ppn_of(a0.lo() + i / 4096) != kf);
            assert(m_now.fview(a0.frame_ppn_of(a0.lo() + i / 4096)) == mem_k.fview(
                a0.frame_ppn_of(a0.lo() + i / 4096),
            )) by {
                lemma_frame_in_range(a0, m0, a0.lo() + i / 4096);
            }
            assert(mem_k.bytes_at(a0.frame_ppn_of(a0.lo() + i / 4096))[i % 4096] == data[i]);
            assert(m_now.bytes_at(a0.frame_ppn_of(a0.lo() + i / 4096)) == mem_k.bytes_at(
                a0.frame_ppn_of(a0.lo() + i / 4096),
            ));
        } else {
            assert(i / 4096 == k) by {
                lemma_fundamental_div_mod_converse(i, 4096, k, i - k * 4096);
            }
            assert(i < chunk_end);
            assert(m_now.bytes_at(kf)[i - k * 4096] == data[i]);
            assert(i % 4096 == i - k * 4096) by {
                lemma_fundamental_div_mod_converse(i, 4096, k, i - k * 4096);
            }
            assert(a0.frame_ppn_of(a0.lo() + i / 4096) == kf);
            assert(m_now.bytes_at(a0.frame_ppn_of(a0.lo() + i / 4096))[i % 4096] == data[i]);
        }
    }
    assert forall|kk: int, j: int|
        0 <= kk < k + 1 && 0 <= j < 4096 && kk * 4096 + j >= data.len() implies
    #[trigger] m_now.bytes_at(a0.frame_ppn_of(a0.lo() + kk))[j] == m0.bytes_at(
        a0.frame_ppn_of(a0.lo() + kk),
    )[j] by {
        if kk < k {
            assert(a0.frame_ppn_of(a0.lo() + kk) != kf);
            assert(m_now.fview(a0.frame_ppn_of(a0.lo() + kk)) == mem_k.fview(
                a0.frame_ppn_of(a0.lo() + kk),
            )) by {
                lemma_frame_in_range(a0, m0, a0.lo() + kk);
            }
            assert(mem_k.bytes_at(a0.frame_ppn_of(a0.lo() + kk))[j] == m0.bytes_at(
                a0.frame_ppn_of(a0.lo() + kk),
            )[j]);
            assert(m_now.bytes_at(a0.frame_ppn_of(a0.lo() + kk)) == mem_k.bytes_at(
                a0.frame_ppn_of(a0.lo() + kk),
            ));
        } else {
            assert(kk == k);
            assert(k * 4096 + j >= data.len());
            assert(j >= chunk_end - k * 4096);
            assert(m_now.bytes_at(kf)[j] == mem_k.bytes_at(kf)[j]);
            assert(mem_k.fview(kf) == m0.fview(kf)) by {
                assert(!a0.owns_frame_page_below(kf, a0.lo() + k)) by {
                    if a0.owns_frame_page_below(kf, a0.lo() + k) {
                        let x = choose|x: int|
                            0 <= x < a0.frames_seq().len() && (
                            #[trigger] a0.frames_seq()[x]).1.ppn.0 == kf && a0.frames_seq()[x].0.0
                                < a0.lo() + k;
                        lemma_frame_ppn_at(a0, x);
                        lemma_distinct_page_frames(a0, a0.frames_seq()[x].0.0 as int, a0.lo() + k);
                    }
                }
                lemma_frame_in_range(a0, m0, a0.lo() + k);
            }
            assert(mem_k.bytes_at(kf) == m0.bytes_at(kf));
        }
    }
    assert forall|q: u64|
        m0.in_range(q) && !a0.owns_frame_page_below(q, a0.lo() + k + 1) implies
    #[trigger] m_now.fview(q) == m0.fview(q) by {
        assert(!a0.owns_frame_page_below(q, a0.lo() + k));
        assert(q != kf) by {
            if q == kf {
                let x = a0.frame_index_of(a0.lo() + k);
                assert(a0.frames_seq()[x].1.ppn.0 == kf && a0.frames_seq()[x].0.0 == a0.lo() + k);
            }
        }
        assert(mem_k.fview(q) == m0.fview(q));
        assert(m_now.fview(q) == mem_k.fview(q));
    }
}

/// Distinct pages of a framed area are backed by distinct frames.
proof fn lemma_distinct_page_frames(a0: MapArea, v1: int, v2: int)
    requires
        a0.wf(),
        a0.has_frame(v1),
        a0.has_frame(v2),
        v1 != v2,
        forall|x: int, l: int|
            0 <= x < l < a0.frames_seq().len() ==> (#[trigger] a0.frames_seq()[x]).1.ppn.0 != (
            #[trigger] a0.frames_seq()[l]).1.ppn.0,
    ensures
        a0.frame_ppn_of(v1) != a0.frame_ppn_of(v2),
{
    let x1 = a0.frame_index_of(v1);
    let x2 = a0.frame_index_of(v2);
    assert(a0.frames_seq()[x1].0.0 == v1 && a0.frames_seq()[x2].0.0 == v2);
    assert(x1 != x2);
}

/// An area's frame lies in the arena.
proof fn lemma_frame_in_range(a0: MapArea, m0: PhysMem, v: int)
    requires
        a0.frames_wf(m0),
        a0.has_frame(v),
    ensures
        m0.in_range(a0.frame_ppn_of(v)),
        m0.is_bytes(a0.frame_ppn_of(v)),
        m0.live(a0.frame_ppn_of(v)),
{
    let x = a0.frame_index_of(v);
    assert(m0.live(a0.frames_seq()[x].1.ppn.0) && m0.is_bytes(a0.frames_seq()[x].1.ppn.0));
}

/// A framed, mapped area backs distinct virtual pages with distinct
/// physical pages.
pub proof fn lemma_framed_area_distinct(
    a: MapArea,
    pt: PageTable,
    mem: PhysMem,
    v1: int,
    v2: int,
)
    requires
        a.wf(),
        a.ty() is Framed,
        a.frames_wf(mem),
        a.mapped_in(pt, mem),
        a.lo() <= v1 < a.hi(),
        a.lo() <= v2 < a.hi(),
        v1 != v2,
    ensures
        pt.spec_resolve(mem, v1 as u64) is Some,
        pt.spec_resolve(mem, v2 as u64) is Some,
        pt.spec_resolve(mem, v1 as u64).unwrap().spec_ppn() != pt.spec_resolve(
            mem,
            v2 as u64,
        ).unwrap().spec_ppn(),
{
    assert(a.has_frame(v1) && a.has_frame(v2));
    lemma_distinct_page_frames(a, v1, v2);
}

/// Two areas own no frame in common.
pub open spec fn frames_disjoint(a: MapArea, b: MapArea) -> bool {
    forall|k: int, l: int|
        0 <= k < a.frames_seq().len() && 0 <= l < b.frames_seq().len() ==> (
        #[trigger] a.frames_seq()[k]).1.ppn.0 != (#[trigger] b.frames_seq()[l]).1.ppn.0
}

/// Whether some recorded area's range starts at `start`.
pub open spec fn has_area_starting(s: Seq<MapArea>, start: u64) -> bool {
    exists|i: int| 0 <= i < s.len() && (#[trigger] s[i]).lo() == start
}

/// The position of the first recorded area whose range starts at `start`.
pub open spec fn first_area_starting(s: Seq<MapArea>, start: u64) -> int
    decreases s.len(),
{
    if s.len() == 0 {
        0
    } else if s[0].lo() == start {
        0
    } else {
        1 + first_area_starting(s.skip(1), start)
    }
}

/// When some area starts at `start`, the first one is a match and nothing
/// before it matches.
pub proof fn lemma_first_area_starting(s: Seq<MapArea>, start: u64)
    requires
        has_area_starting(s, start),
    ensures
        0 <= first_area_starting(s, start) < s.len(),
        s[first_area_starting(s, start)].lo() == start,
        forall|j: int| 0 <= j < first_area_starting(s, start) ==> (#[trigger] s[j]).lo() != start,
    decreases s.len(),
{
    let w = choose|i: int| 0 <= i < s.len() && (#[trigger] s[i]).lo() == start;
    if s[0].lo() == start {
    } else {
        assert(w != 0);
        assert(s.skip(1)[w - 1] == s[w]);
        assert(has_area_starting(s.skip(1), start));
        lemma_first_area_starting(s.skip(1), start);
        let f1 = first_area_starting(s.skip(1), start);
        assert(s.skip(1)[f1] == s[f1 + 1]);
        assert forall|j: int|
            0 <= j < first_area_starting(s, start) implies (#[trigger] s[j]).lo() != start by {
            if j > 0 {
                assert(s.skip(1)[j - 1] == s[j]);
            }
        }
    }
}

/// Whether page `q` is an owned frame of some area recorded from position
/// `from` on.
pub open spec fn owned_by_suffix(s: Seq<MapArea>, from: int, q: u64) -> bool {
    exists|i: int| from <= i < s.len() && (#[trigger] s[i]).owns_frame_page(q)
}

/// An address space: one page table plus the areas installed in it. The
/// areas' ranges are pairwise disjoint and their owned frames are pairwise
/// distinct, so removing one area can never disturb another.
pub struct MemorySet {
    page_table: PageTable,
    areas: Vec<MapArea>,
}

impl MemorySet {
    /// The page table.
    pub closed spec fn pt(self) -> PageTable {
        self.page_table
    }

    /// The recorded areas, oldest first.
    pub closed spec fn areas_seq(self) -> Seq<MapArea> {
        self.areas@
    }

    /// The translation `vpn` currently resolves to.
    #[verifier::opaque]
    pub open spec fn spec_resolve(self, mem: PhysMem, vpn: u64) -> Option<PageTableEntry> {
        self.pt().spec_resolve(mem, vpn)
    }

    /// Whether page `q` is a frame owned by some recorded area.
    pub open spec fn owns_data_frame(self, q: u64) -> bool {
        exists|i: int|
            0 <= i < self.areas_seq().len() && (#[trigger] self.areas_seq()[i]).owns_frame_page(q)
    }

    /// The address space's consistency within the arena: a well-formed
    /// live-node page table, every area well formed, fully mapped and
    /// backed by distinct live frames, with pairwise disjoint ranges and
    /// pairwise distinct frames.
    #[verifier::opaque]
    pub open spec fn wf_in(self, mem: PhysMem) -> bool {
        &&& self.pt().wf_in(mem)
        &&& self.pt().nodes_live(mem)
        &&& self.pt().root() < PPN_BOUND
        &&& forall|i: int|
            0 <= i < self.areas_seq().len() ==> (#[trigger] self.areas_seq()[i]).wf()
                && self.areas_seq()[i].frames_wf(mem) && self.areas_seq()[i].mapped_in(
                self.pt(),
                mem,
            )
        &&& forall|i: int, j: int|
            0 <= i < j < self.areas_seq().len() ==> ((#[trigger] self.areas_seq()[i]).hi() <= (
            #[trigger] self.areas_seq()[j]).lo() || self.areas_seq()[j].hi()
                <= self.areas_seq()[i].lo() || self.areas_seq()[i].lo() == self.areas_seq()[i].hi()
                || self.areas_seq()[j].lo() == self.areas_seq()[j].hi())
        &&& forall|i: int, j: int|
            #![trigger self.areas_seq()[i], self.areas_seq()[j]]
            0 <= i < j < self.areas_seq().len() ==> frames_disjoint(
                self.areas_seq()[i],
                self.areas_seq()[j],
            )
    }

    /// A fresh, empty address space with a newly allocated root node.
    pub fn new(mem: &mut PhysMem) -> (ms: MemorySet)
        requires
            old(mem).wf(),
            old(mem).free_count() >= 1,
        ensures
            final(mem).wf(),
            same_extent(*old(mem), *final(mem)),
            ms.wf_in(*final(mem)),
            ms.areas_seq().len() == 0,
            forall|w: u64| #[trigger] ms.spec_resolve(*final(mem), w) == None::<PageTableEntry>,
            forall|q: u64| old(mem).live(q) ==> #[trigger] final(mem).live(q),
            forall|q: u64|
                old(mem).is_bytes(q) && old(mem).live(q) ==> #[trigger] final(mem).fview(q) == old(
                    mem,
                ).fview(q),
            final(mem).free_count() == old(mem).free_count() - 1,
            final(mem).alloc_state().top() == old(mem).alloc_state().top(),
    {
        let pt = PageTable::new(mem);
        proof {
            reveal(MemorySet::wf_in);
            reveal(MemorySet::spec_resolve);
            assert forall|q: u64|
                old(mem).is_bytes(q) && old(mem).live(q) implies #[trigger] mem.fview(q) == old(
                mem,
            ).fview(q) by {}
        }
        MemorySet { page_table: pt, areas: Vec::new() }
    }

    /// The hardware activation token selecting this space's page table.
    pub fn satp(&self) -> (r: u64)
        requires
            self.pt().root() < PPN_BOUND,
        ensures
            r == self.pt().spec_satp(),
    {
        self.page_table.satp()
    }

    /// The leaf entry `vpn` currently reaches, if the walk completes; used
    /// by callers that need a physical mapping without activating the
    /// space.
    pub fn translate(&self, mem: &PhysMem, vpn: VirtPageNum) -> (r: Option<PageTableEntry>)
        requires
            mem.wf(),
            self.wf_in(*mem),
        ensures
            r == self.pt().spec_translate(*mem, vpn.0),
            r is Some && r.unwrap().spec_valid() ==> self.spec_resolve(*mem, vpn.0) == r,
            (!(r is Some) || !r.unwrap().spec_valid()) ==> self.spec_resolve(*mem, vpn.0)
                == None::<PageTableEntry>,
    {
        proof {
            reveal(MemorySet::wf_in);
            reveal(MemorySet::spec_resolve);
        }
        self.page_table.translate(mem, vpn)
    }

    /// Installs an area: maps every page of its range, optionally copies
    /// initial data into a framed area, then records the area. An area is
    /// never recorded without being mapped first.
    #[verifier::rlimit(100)]
    #[verifier::spinoff_prover]
    pub fn push(&mut self, mem: &mut PhysMem, map_area: MapArea, data: Option<&[u8]>)
        requires
            old(self).wf_in(*old(mem)),
            old(mem).wf(),
            map_area.wf(),
            map_area.frames_seq().len() == 0,
            forall|v: int|
                map_area.lo() <= v < map_area.hi() ==> #[trigger] old(self).spec_resolve(
                    *old(mem),
                    v as u64,
                ) == None::<PageTableEntry>,
            old(mem).free_count() >= map_area.area_cost(),
            data is Some ==> map_area.ty() is Framed && map_area.lo() < map_area.hi()
                && data.unwrap()@.len() <= (map_area.hi() - map_area.lo()) * 4096,
        ensures
            final(self).wf_in(*final(mem)),
            final(mem).wf(),
            same_extent(*old(mem), *final(mem)),
            final(self).areas_seq().len() == old(self).areas_seq().len() + 1,
            final(self).areas_seq().last().lo() == map_area.lo(),
            final(self).areas_seq().last().hi() == map_area.hi(),
            final(self).areas_seq().last().ty() == map_area.ty(),
            final(self).areas_seq().last().perm() == map_area.perm(),
            forall|i: int|
                0 <= i < old(self).areas_seq().len() ==> #[trigger] final(self).areas_seq()[i]
                    == old(self).areas_seq()[i],
            forall|w: u64|
                w < VPN_BOUND && !(map_area.lo() <= w < map_area.hi())
                    ==> #[trigger] final(self).spec_resolve(*final(mem), w)
                    == old(self).spec_resolve(*old(mem), w),
            forall|q: u64| old(mem).live(q) ==> #[trigger] final(mem).live(q),
            final(mem).free_count() >= old(mem).free_count() - map_area.area_cost(),
            final(mem).alloc_state().top() == old(mem).alloc_state().top(),
            data is Some ==> forall|i: int|
                0 <= i < data.unwrap()@.len() ==> #[trigger] final(mem).bytes_at(
                    final(self).areas_seq().last().frame_ppn_of(map_area.lo() + i / 4096),
                )[i % 4096] == data.unwrap()@[i],
            data is Some ==> forall|k: int, j: int|
                0 <= k < map_area.hi() - map_area.lo() && 0 <= j < 4096 && k * 4096 + j
                    >= data.unwrap()@.len() ==> #[trigger] final(mem).bytes_at(
                    final(self).areas_seq().last().frame_ppn_of(map_area.lo() + k),
                )[j] == 0,
    {
        let ghost m0 = *old(mem);
        let ghost ms0 = *old(self);
        proof {
            lemma_push_prepare(ms0, m0, map_area);
        }
        let mut area = map_area;
        area.map(&mut self.page_table, mem);
        let ghost m1 = *mem;
        let ghost a1 = area;
        if let Some(bytes) = data {
            proof {
                assert(a1.mapped_in(self.pt(), m1));
            }
            area.copy_data(&self.page_table, mem, bytes);
            proof {
                lemma_copy_keeps_mapping(a1, self.page_table, m1, *mem);
                assert forall|k: int, j: int|
                    0 <= k < a1.hi() - a1.lo() && 0 <= j < 4096 && k * 4096 + j
                        >= bytes@.len() implies #[trigger] mem.bytes_at(
                    a1.frame_ppn_of(a1.lo() + k),
                )[j] == 0 by {
                    assert(a1.has_frame(a1.lo() + k));
                    let x = a1.frame_index_of(a1.lo() + k);
                    assert(a1.frames_seq()[x].1.ppn.0 == a1.frame_ppn_of(a1.lo() + k));
                    assert(m1.bytes_at(a1.frames_seq()[x].1.ppn.0) == Seq::new(
                        4096,
                        |i: int| 0u8,
                    ));
                    assert(mem.bytes_at(a1.frame_ppn_of(a1.lo() + k))[j] == m1.bytes_at(
                        a1.frame_ppn_of(a1.lo() + k),
                    )[j]);
                }
            }
        }
        self.areas.push(area);
        proof {
            lemma_push_wf(ms0, *self, map_area, area, m0, m1, *mem, data is Some);
        }
    }

    /// Installs a demand-framed area covering `[start_va, end_va)` with the
    /// given permissions: the common case of giving a process fresh memory.
    pub fn insert_framed_area(
        &mut self,
        mem: &mut PhysMem,
        start_va: VirtAddr,
        end_va: VirtAddr,
        map_perm: MapPermission,
    )
        requires
            old(self).wf_in(*old(mem)),
            old(mem).wf(),
            start_va.0 <= end_va.0 <= VA_BOUND,
            forall|v: int|
                spec_page_floor(start_va.0 as int) <= v < spec_page_ceil(end_va.0 as int)
                    ==> #[trigger] old(self).spec_resolve(*old(mem), v as u64)
                    == None::<PageTableEntry>,
            old(mem).free_count() >= range_cost(
                spec_page_floor(start_va.0 as int),
                spec_page_ceil(end_va.0 as int),
            ) + spec_page_ceil(end_va.0 as int) - spec_page_floor(start_va.0 as int),
        ensures
            final(self).wf_in(*final(mem)),
            final(mem).wf(),
            same_extent(*old(mem), *final(mem)),
            final(self).areas_seq().len() == old(self).areas_seq().len() + 1,
            forall|i: int|
                0 <= i < old(self).areas_seq().len() ==> #[trigger] final(self).areas_seq()[i]
                    == old(self).areas_seq()[i],
            final(self).areas_seq().last().lo() == spec_page_floor(start_va.0 as int),
            final(self).areas_seq().last().hi() == spec_page_ceil(end_va.0 as int),
            final(self).areas_seq().last().ty() == MapType::Framed,
            final(self).areas_seq().last().perm() == map_perm,
            forall|w: u64|
                w < VPN_BOUND && !(spec_page_floor(start_va.0 as int) <= w < spec_page_ceil(
                    end_va.0 as int,
                )) ==> #[trigger] final(self).spec_resolve(*final(mem), w) == old(
                    self,
                ).spec_resolve(*old(mem), w),
            final(mem).free_count() >= old(mem).free_count() - range_cost(
                spec_page_floor(start_va.0 as int),
                spec_page_ceil(end_va.0 as int),
            ) - (spec_page_ceil(end_va.0 as int) - spec_page_floor(start_va.0 as int)),
            final(mem).alloc_state().top() == old(mem).alloc_state().top(),
    {
        let area = MapArea::new(start_va, end_va, MapType::Framed, map_perm);
        self.push(mem, area, None);
    }

    /// Unmaps and drops the area whose range starts at `start_vpn`,
    /// returning its owned frames to the allocator; does nothing when no
    /// area starts there.
    #[verifier::rlimit(100)]
    #[verifier::spinoff_prover]
    pub fn remove_area_with_start_vpn(&mut self, mem: &mut PhysMem, start_vpn: VirtPageNum)
        requires
            old(self).wf_in(*old(mem)),
            old(mem).wf(),
        ensures
            final(self).wf_in(*final(mem)),
            final(mem).wf(),
            same_extent(*old(mem), *final(mem)),
            final(self).pt().root() == old(self).pt().root(),
            final(mem).alloc_state().top() == old(mem).alloc_state().top(),
            !has_area_starting(old(self).areas_seq(), start_vpn.0) ==> *final(self) == *old(self)
                && *final(mem) == *old(mem),
            has_area_starting(old(self).areas_seq(), start_vpn.0) ==> ({
                let i = first_area_starting(old(self).areas_seq(), start_vpn.0);
                let a = old(self).areas_seq()[i];
                &&& final(self).areas_seq() == old(self).areas_seq().remove(i)
                &&& forall|v: int|
                    a.lo() <= v < a.hi() ==> #[trigger] final(self).spec_resolve(
                        *final(mem),
                        v as u64,
                    ) == None::<PageTableEntry>
                &&& forall|w: u64|
                    w < VPN_BOUND && !(a.lo() <= w < a.hi())
                        ==> #[trigger] final(self).spec_resolve(*final(mem), w)
                        == old(self).spec_resolve(*old(mem), w)
                &&& forall|q: u64|
                    #[trigger] final(mem).live(q) == (old(mem).live(q) && !a.owns_frame_page(q))
                &&& final(mem).free_count() == old(mem).free_count() + a.frames_seq().len()
            }),
    {
        let ghost m0 = *old(mem);
        let ghost ms0 = *old(self);
        proof {
            reveal(MemorySet::wf_in);
            reveal(MemorySet::spec_resolve);
        }
        let n = self.areas.len();
        let mut idx: usize = n;
        let mut i: usize = 0;
        while i < n
            invariant
                n == self.areas_seq().len(),
                i <= n,
                *self == ms0,
                idx <= n,
                idx < n ==> self.areas_seq()[idx as int].lo() == start_vpn.0 && (forall|j: int|
                    0 <= j < idx ==> (#[trigger] self.areas_seq()[j]).lo() != start_vpn.0),
                idx == n ==> forall|j: int|
                    0 <= j < i ==> (#[trigger] self.areas_seq()[j]).lo() != start_vpn.0,
            decreases n - i,
        {
            if idx == n {
                let lo_elem = self.areas[i].get_range_start();
                if lo_elem.0 == start_vpn.0 {
                    idx = i;
                }
            }
            i = i + 1;
        }
        if idx < n {
            proof {
                assert(has_area_starting(ms0.areas_seq(), start_vpn.0));
                lemma_first_area_starting(ms0.areas_seq(), start_vpn.0);
                let f = first_area_starting(ms0.areas_seq(), start_vpn.0);
                if f < idx {
                    assert(ms0.areas_seq()[f].lo() != start_vpn.0);
                }
                if idx < f {
                    assert(ms0.areas_seq()[idx as int].lo() != start_vpn.0);
                }
                assert(f == idx);
            }
            let ghost removed = ms0.areas_seq()[idx as int];
            let mut area = self.areas.remove(idx);
            proof {
                lemma_area_removed_wf(ms0, *self, idx as int, m0);
                assert(area == removed);
            }
            area.unmap(&mut self.page_table, mem);
            proof {
                lemma_remove_unmap_wf(ms0, *self, removed, idx as int, m0, *mem);
            }
        } else {
            proof {
                assert(!has_area_starting(ms0.areas_seq(), start_vpn.0)) by {
                    if has_area_starting(ms0.areas_seq(), start_vpn.0) {
                        let w = choose|j: int|
                            0 <= j < ms0.areas_seq().len() && (
                            #[trigger] ms0.areas_seq()[j]).lo() == start_vpn.0;
                        assert(ms0.areas_seq()[w].lo() != start_vpn.0);
                    }
                }
            }
        }
    }

    /// Drops every area — and with them every owned data frame — while
    /// keeping the page table and its node frames: used when a process
    /// exits but its table must survive briefly for bookkeeping. The leaf
    /// entries are not cleared: the areas are dropped without unmapping, so
    /// every translation reads exactly as before.
    #[verifier::rlimit(100)]
    #[verifier::spinoff_prover]
    pub fn recycle_data_pages(&mut self, mem: &mut PhysMem)
        requires
            old(self).wf_in(*old(mem)),
            old(mem).wf(),
        ensures
            final(self).wf_in(*final(mem)),
            final(self).areas_seq().len() == 0,
            final(self).pt() == old(self).pt(),
            final(mem).wf(),
            same_extent(*old(mem), *final(mem)),
            forall|w: u64|
                w < VPN_BOUND ==> #[trigger] final(self).spec_resolve(*final(mem), w) == old(
                    self,
                ).spec_resolve(*old(mem), w),
            forall|q: u64|
                #[trigger] final(mem).live(q) == (old(mem).live(q) && !old(self).owns_data_frame(
                    q,
                )),
            final(mem).free_count() >= old(mem).free_count(),
            final(mem).alloc_state().top() == old(mem).alloc_state().top(),
    {
        let ghost m0 = *old(mem);
        let ghost ms0 = *old(self);
        proof {
            reveal(MemorySet::wf_in);
            reveal(MemorySet::spec_resolve);
            assert(self.areas_seq() =~= ms0.areas_seq().take(self.areas_seq().len() as int));
        }
        while self.areas.len() > 0
            invariant
                mem.wf(),
                m0.wf(),
                ms0.wf_in(m0),
                same_extent(m0, *mem),
                self.pt() == ms0.pt(),
                self.areas_seq().len() <= ms0.areas_seq().len(),
                self.areas_seq() == ms0.areas_seq().take(self.areas_seq().len() as int),
                crate::frame_allocator::frames_unchanged(m0, *mem),
                ms0.pt().wf_in(*mem),
                ms0.pt().nodes_live(*mem),
                forall|w: u64|
                    w < VPN_BOUND ==> #[trigger] ms0.pt().spec_resolve(*mem, w)
                        == ms0.pt().spec_resolve(m0, w),
                forall|q: u64|
                    #[trigger] mem.live(q) == (m0.live(q) && !owned_by_suffix(
                        ms0.areas_seq(),
                        self.areas_seq().len() as int,
                        q,
                    )),
                mem.free_count() >= m0.free_count(),
                mem.alloc_state().top() == m0.alloc_state().top(),
            decreases self.areas.len(),
        {
            proof {
                reveal(MemorySet::wf_in);
            }
            let n = self.areas.len();
            let ghost removed = ms0.areas_seq()[n - 1];
            let area = self.areas.remove(n - 1);
            proof {
                assert(ms0.areas_seq().take(n as int)[n - 1] == ms0.areas_seq()[n - 1]);
                assert(area == removed);
                assert(self.areas_seq() =~= ms0.areas_seq().take(n - 1));
                assert(removed.frames_wf(m0));
            }
            let frames_total = area.data_frames.len();
            let mut j: usize = 0;
            while j < frames_total
                invariant
                    m0.wf(),
                    ms0.wf_in(m0),
                    0 <= n - 1 < ms0.areas_seq().len(),
                    removed == ms0.areas_seq()[n - 1],
                    area == removed,
                    frames_total == removed.frames_seq().len(),
                    j <= frames_total,
                    mem.wf(),
                    same_extent(m0, *mem),
                    crate::frame_allocator::frames_unchanged(m0, *mem),
                    ms0.pt().wf_in(*mem),
                    ms0.pt().nodes_live(*mem),
                    forall|w: u64|
                        w < VPN_BOUND ==> #[trigger] ms0.pt().spec_resolve(*mem, w)
                            == ms0.pt().spec_resolve(m0, w),
                    forall|q: u64|
                        #[trigger] mem.live(q) == (m0.live(q) && !owned_by_suffix(
                            ms0.areas_seq(),
                            n as int,
                            q,
                        ) && !removed.owns_frame_among(j as int, q)),
                    mem.free_count() >= m0.free_count(),
                    mem.alloc_state().top() == m0.alloc_state().top(),
                decreases frames_total - j,
            {
                proof {
                    reveal(MemorySet::wf_in);
                }
                let ppn = area.data_frames[j].1.ppn;
                let ghost m_prev = *mem;
                proof {
                    lemma_recycle_frame_live(ms0, removed, m0, m_prev, n as int, j as int);
                }
                frame_dealloc(mem, ppn);
                proof {
                    assert(m0.is_bytes(ppn.0));
                    lemma_dealloc_keeps_walk(ms0.pt(), m_prev, *mem, ppn.0);
                    assert forall|w: u64|
                        w < VPN_BOUND implies #[trigger] ms0.pt().spec_resolve(*mem, w)
                        == ms0.pt().spec_resolve(m0, w) by {
                        assert(ms0.pt().spec_resolve(*mem, w) == ms0.pt().spec_resolve(
                            m_prev,
                            w,
                        ));
                    }
                    assert forall|q: u64|
                        #[trigger] mem.live(q) == (m0.live(q) && !owned_by_suffix(
                        ms0.areas_seq(),
                        n as int,
                        q,
                    ) && !removed.owns_frame_among(j + 1 as int, q)) by {
                        assert(mem.live(q) == (m_prev.live(q) && q != ppn.0));
                        assert(removed.owns_frame_among(j + 1 as int, q) == (
                        removed.owns_frame_among(j as int, q) || q == ppn.0)) by {
                            if removed.owns_frame_among(j + 1 as int, q) {
                                let k = choose|k: int|
                                    0 <= k < j + 1 && k < removed.frames_seq().len() && (
                                    #[trigger] removed.frames_seq()[k]).1.ppn.0 == q;
                                if k == j {
                                    assert(q == ppn.0);
                                }
                            }
                            if q == ppn.0 {
                                assert(removed.frames_seq()[j as int].1.ppn.0 == q);
                            }
                        }
                    }
                }
                j = j + 1;
            }
            proof {
                assert forall|q: u64|
                    #[trigger] mem.live(q) == (m0.live(q) && !owned_by_suffix(
                    ms0.areas_seq(),
                    n - 1,
                    q,
                )) by {
                    assert(owned_by_suffix(ms0.areas_seq(), n - 1, q) == (owned_by_suffix(
                        ms0.areas_seq(),
                        n as int,
                        q,
                    ) || removed.owns_frame_page(q))) by {
                        if owned_by_suffix(ms0.areas_seq(), n - 1, q) {
                            let i = choose|i: int|
                                n - 1 <= i < ms0.areas_seq().len() && (
                                #[trigger] ms0.areas_seq()[i]).owns_frame_page(q);
                            if i == n - 1 {
                            }
                        }
                    }
                    assert(removed.owns_frame_page(q) == removed.owns_frame_among(
                        frames_total as int,
                        q,
                    )) by {
                        if removed.owns_frame_page(q) {
                            let k = choose|k: int|
                                0 <= k < removed.frames_seq().len() && (
                                #[trigger] removed.frames_seq()[k]).1.ppn.0 == q;
                            assert(removed.owns_frame_among(frames_total as int, q));
                        }
                    }
                }
            }
        }
        proof {
            reveal(MemorySet::wf_in);
            reveal(MemorySet::spec_resolve);
            assert forall|q: u64|
                #[trigger] mem.live(q) == (m0.live(q) && !ms0.owns_data_frame(q)) by {
                assert(owned_by_suffix(ms0.areas_seq(), 0, q) == ms0.owns_data_frame(q));
            }
        }
    }
}

impl MapArea {
    /// The first page of the area's range, as an element.
    pub fn get_range_start(&self) -> (r: VirtPageNum)
        ensures
            r.0 == self.lo(),
    {
        self.vpn_range.get_start()
    }
}

/// Copying data into a mapped framed area leaves the page table and every
/// area's mapping exactly as it was.
#[verifier::rlimit(100)]
proof fn lemma_copy_keeps_mapping(a1: MapArea, pt: PageTable, m1: PhysMem, m2: PhysMem)
    requires
        a1.wf(),
        m1.wf(),
        m2.wf(),
        same_extent(m1, m2),
        pt.wf_in(m1),
        a1.frames_wf(m1),
        forall|q: u64|
            m1.in_range(q) && !a1.owns_frame_page(q) ==> #[trigger] m2.fview(q) == m1.fview(q),
        forall|q: u64| #[trigger] m2.live(q) == m1.live(q),
    ensures
        pt.wf_in(m2),
        forall|w: u64|
            w < VPN_BOUND ==> #[trigger] pt.spec_resolve(m2, w) == pt.spec_resolve(m1, w),
        pt.nodes_live(m1) ==> pt.nodes_live(m2),
{
    lemma_copy_walk_same(a1, pt, m1, m2, 0);
}

/// Removing an area from the record keeps the remaining record well
/// formed.
#[verifier::rlimit(100)]
proof fn lemma_area_removed_wf(ms0: MemorySet, ms1: MemorySet, idx: int, m0: PhysMem)
    requires
        ms0.wf_in(m0),
        0 <= idx < ms0.areas_seq().len(),
        ms1.pt() == ms0.pt(),
        ms1.areas_seq() == ms0.areas_seq().remove(idx),
    ensures
        ms1.wf_in(m0),
{
    reveal(MemorySet::wf_in);
    reveal(MemorySet::spec_resolve);
    let s0 = ms0.areas_seq();
    let s1 = ms1.areas_seq();
    assert forall|x: int| 0 <= x < s1.len() implies #[trigger] s1[x] == (if x < idx {
        s0[x]
    } else {
        s0[x + 1]
    }) by {}
    assert forall|i: int|
        0 <= i < s1.len() implies (#[trigger] s1[i]).wf() && s1[i].frames_wf(m0)
        && s1[i].mapped_in(ms1.pt(), m0) by {
        let i0: int = if i < idx {
            i
        } else {
            i + 1
        };
        assert(s1[i] == s0[i0]);
    }
    assert forall|i: int, j: int|
        0 <= i < j < s1.len() implies ((#[trigger] s1[i]).hi() <= (#[trigger] s1[j]).lo()
        || s1[j].hi() <= s1[i].lo() || s1[i].lo() == s1[i].hi() || s1[j].lo() == s1[j].hi()) by {
        let i0: int = if i < idx {
            i
        } else {
            i + 1
        };
        let j0: int = if j < idx {
            j
        } else {
            j + 1
        };
        assert(s1[i] == s0[i0] && s1[j] == s0[j0]);
    }
    assert forall|i: int, j: int| 0 <= i < j < s1.len() implies frames_disjoint(
        #[trigger] s1[i],
        #[trigger] s1[j],
    ) by {
        let i0: int = if i < idx {
            i
        } else {
            i + 1
        };
        let j0: int = if j < idx {
            j
        } else {
            j + 1
        };
        assert(s1[i] == s0[i0] && s1[j] == s0[j0]);
        assert(frames_disjoint(s0[i0], s0[j0]));
    }
}

/// After unmapping a removed area, the remaining address space is still
/// well formed: the other areas' ranges were disjoint from the removed
/// one, so their translations and frames are untouched.
#[verifier::rlimit(100)]
#[verifier::spinoff_prover]
proof fn lemma_remove_unmap_wf(
    ms0: MemorySet,
    ms1: MemorySet,
    area: MapArea,
    idx: int,
    m0: PhysMem,
    m2: PhysMem,
)
    requires
        ms0.wf_in(m0),
        m0.wf(),
        m2.wf(),
        same_extent(m0, m2),
        0 <= idx < ms0.areas_seq().len(),
        area.lo() == ms0.areas_seq()[idx].lo(),
        area.hi() == ms0.areas_seq()[idx].hi(),
        ms1.areas_seq() == ms0.areas_seq().remove(idx),
        ms1.pt().root() == ms0.pt().root(),
        ms1.pt().wf_in(m2),
        ms1.pt().nodes_live(m2),
        forall|w: u64|
            w < VPN_BOUND && !(area.lo() <= w < area.hi()) ==> #[trigger] ms1.pt().spec_resolve(
                m2,
                w,
            ) == ms0.pt().spec_resolve(m0, w),
        forall|q: u64| m0.is_bytes(q) ==> #[trigger] m2.fview(q) == m0.fview(q),
        forall|q: u64| m2.live(q) ==> m0.live(q),
        forall|q: u64|
            m0.live(q) && !ms0.areas_seq()[idx].owns_frame_page(q) ==> #[trigger] m2.live(q),
    ensures
        ms1.wf_in(m2),
{
    reveal(MemorySet::wf_in);
    reveal(MemorySet::spec_resolve);
    let s0 = ms0.areas_seq();
    let s1 = ms1.areas_seq();
    assert(ms1.pt().root() < PPN_BOUND);
    assert forall|x: int| 0 <= x < s1.len() implies #[trigger] s1[x] == (if x < idx {
        s0[x]
    } else {
        s0[x + 1]
    }) by {}
    assert forall|i: int|
        0 <= i < s1.len() implies (#[trigger] s1[i]).wf() && s1[i].frames_wf(m2)
        && s1[i].mapped_in(ms1.pt(), m2) by {
        let i0: int = if i < idx {
            i
        } else {
            i + 1
        };
        assert(s1[i] == s0[i0]);
        assert(s0[i0].wf() && s0[i0].frames_wf(m0) && s0[i0].mapped_in(ms0.pt(), m0));
        // frames keep their liveness and contents
        assert(s1[i].frames_wf(m2)) by {
            assert forall|k: int| 0 <= k < s0[i0].frames_seq().len() implies m2.live(
                (#[trigger] s0[i0].frames_seq()[k]).1.ppn.0,
            ) && m2.is_bytes(s0[i0].frames_seq()[k].1.ppn.0) by {
                assert(m0.live(s0[i0].frames_seq()[k].1.ppn.0) && m0.is_bytes(
                    s0[i0].frames_seq()[k].1.ppn.0,
                ));
                assert(m2.fview(s0[i0].frames_seq()[k].1.ppn.0) == m0.fview(
                    s0[i0].frames_seq()[k].1.ppn.0,
                ));
                assert(m2.live(s0[i0].frames_seq()[k].1.ppn.0)) by {
                    if s0[idx].owns_frame_page(s0[i0].frames_seq()[k].1.ppn.0) {
                        let l = choose|l: int|
                            0 <= l < s0[idx].frames_seq().len() && (
                            #[trigger] s0[idx].frames_seq()[l]).1.ppn.0
                                == s0[i0].frames_seq()[k].1.ppn.0;
                        if i0 < idx {
                            assert(frames_disjoint(s0[i0], s0[idx]));
                            assert(s0[i0].frames_seq()[k].1.ppn.0
                                != s0[idx].frames_seq()[l].1.ppn.0);
                        } else {
                            assert(frames_disjoint(s0[idx], s0[i0]));
                            assert(s0[idx].frames_seq()[l].1.ppn.0
                                != s0[i0].frames_seq()[k].1.ppn.0);
                        }
                    }
                }
            }
        }
        // translations keep resolving: the ranges are disjoint
        assert forall|v: int|
            s1[i].lo() <= v < s1[i].hi() implies ((#[trigger] ms1.pt().spec_resolve(m2, v as u64))
            matches Some(e) && e.spec_ppn() == s1[i].spec_target(v) && e.spec_flags()
            == flags_with_valid(s1[i].perm().spec_pte_flags())) by {
            assert(i0 != idx);
            assert(!(area.lo() <= v < area.hi())) by {
                let di = s0[i0];
                let dr = s0[idx];
                if i0 < idx {
                    assert(di.hi() <= dr.lo() || dr.hi() <= di.lo() || di.lo() == di.hi()
                        || dr.lo() == dr.hi());
                } else {
                    assert(dr.hi() <= di.lo() || di.hi() <= dr.lo() || dr.lo() == dr.hi()
                        || di.lo() == di.hi());
                }
            }
            assert(v < VPN_BOUND);
            assert(ms1.pt().spec_resolve(m2, v as u64) == ms0.pt().spec_resolve(m0, v as u64));
        }
    }
    assert forall|i: int, j: int|
        0 <= i < j < s1.len() implies ((#[trigger] s1[i]).hi() <= (#[trigger] s1[j]).lo()
        || s1[j].hi() <= s1[i].lo() || s1[i].lo() == s1[i].hi() || s1[j].lo() == s1[j].hi()) by {
        let i0: int = if i < idx {
            i
        } else {
            i + 1
        };
        let j0: int = if j < idx {
            j
        } else {
            j + 1
        };
        assert(s1[i] == s0[i0] && s1[j] == s0[j0]);
    }
    assert forall|i: int, j: int| 0 <= i < j < s1.len() implies frames_disjoint(
        #[trigger] s1[i],
        #[trigger] s1[j],
    ) by {
        let i0: int = if i < idx {
            i
        } else {
            i + 1
        };
        let j0: int = if j < idx {
            j
        } else {
            j + 1
        };
        assert(s1[i] == s0[i0] && s1[j] == s0[j0]);
        assert(frames_disjoint(s0[i0], s0[j0]));
    }
}


/// After a push — mapping a fresh area and optionally copying its data —
/// the whole address space is well formed again: the old areas kept their
/// translations and frames, and the new area is installed and disjoint
/// from all of them.
#[verifier::rlimit(100)]
#[verifier::spinoff_prover]
proof fn lemma_push_wf(
    ms0: MemorySet,
    ms1: MemorySet,
    a_in: MapArea,
    a_fin: MapArea,
    m0: PhysMem,
    m1: PhysMem,
    m2: PhysMem,
    copied: bool,
)
    requires
        ms0.wf_in(m0),
        m0.wf(),
        a_in.wf(),
        a_in.frames_seq().len() == 0,
        forall|v: int|
            a_in.lo() <= v < a_in.hi() ==> !#[trigger] ms0.pt().is_mapped(m0, v as u64),
        area_map_post(a_in, a_fin, ms0.pt(), ms1.pt(), m0, m1),
        ms1.areas_seq() == ms0.areas_seq().push(a_fin),
        if copied {
            &&& m2.wf()
            &&& same_extent(m1, m2)
            &&& ms1.pt().wf_in(m2)
            &&& ms1.pt().nodes_live(m2)
            &&& (forall|w: u64|
                w < VPN_BOUND ==> #[trigger] ms1.pt().spec_resolve(m2, w) == ms1.pt().spec_resolve(
                    m1,
                    w,
                ))
            &&& a_fin.frames_wf(m2)
            &&& (forall|q: u64|
                m1.in_range(q) && !a_fin.owns_frame_page(q) ==> #[trigger] m2.fview(q) == m1.fview(
                    q,
                ))
            &&& (forall|q: u64| #[trigger] m2.live(q) == m1.live(q))
        } else {
            m2 == m1
        },
    ensures
        ms1.wf_in(m2),
        forall|w: u64|
            w < VPN_BOUND && !(a_in.lo() <= w < a_in.hi()) ==> #[trigger] ms1.spec_resolve(m2, w)
                == ms0.spec_resolve(m0, w),
{
    reveal(MemorySet::wf_in);
    reveal(MemorySet::spec_resolve);
    let s0 = ms0.areas_seq();
    let s1 = ms1.areas_seq();
    assert(ms1.pt().root() < PPN_BOUND) by {
        assert(m1.live(ms1.pt().root()));
    }
    // translations outside the new range are as before
    assert forall|w: u64|
        w < VPN_BOUND && !(a_in.lo() <= w < a_in.hi()) implies #[trigger] ms1.pt().spec_resolve(
        m2,
        w,
    ) == ms0.pt().spec_resolve(m0, w) by {
        if copied {
            assert(ms1.pt().spec_resolve(m2, w) == ms1.pt().spec_resolve(m1, w));
        }
        assert(ms1.pt().spec_resolve(m1, w) == ms0.pt().spec_resolve(m0, w));
    }
    // the new area stays installed after the copy
    assert(a_fin.mapped_in(ms1.pt(), m2)) by {
        assert forall|v: int|
            a_fin.lo() <= v < a_fin.hi() implies ((#[trigger] ms1.pt().spec_resolve(m2, v as u64))
            matches Some(e) && e.spec_ppn() == a_fin.spec_target(v) && e.spec_flags()
            == flags_with_valid(a_fin.perm().spec_pte_flags())) by {
            if copied {
                assert(ms1.pt().spec_resolve(m2, v as u64) == ms1.pt().spec_resolve(
                    m1,
                    v as u64,
                ));
            }
        }
    }
    assert(a_fin.frames_wf(m2)) by {
        if !copied {
        }
    }
    // every old area is untouched
    assert forall|i: int|
        0 <= i < s1.len() implies (#[trigger] s1[i]).wf() && s1[i].frames_wf(m2)
        && s1[i].mapped_in(ms1.pt(), m2) by {
        if i < s0.len() {
            assert(s1[i] == s0[i]);
            assert(s0[i].wf() && s0[i].frames_wf(m0) && s0[i].mapped_in(ms0.pt(), m0));
            assert forall|v: int|
                s0[i].lo() <= v < s0[i].hi() implies ((#[trigger] ms1.pt().spec_resolve(
                m2,
                v as u64,
            )) matches Some(e) && e.spec_ppn() == s0[i].spec_target(v) && e.spec_flags()
                == flags_with_valid(s0[i].perm().spec_pte_flags())) by {
                assert(v < VPN_BOUND);
                assert(!(a_in.lo() <= v < a_in.hi())) by {
                    if a_in.lo() <= v < a_in.hi() {
                        assert(ms0.pt().spec_resolve(m0, v as u64) is Some);
                        assert(!ms0.pt().is_mapped(m0, v as u64));
                    }
                }
                assert(ms1.pt().spec_resolve(m2, v as u64) == ms0.pt().spec_resolve(
                    m0,
                    v as u64,
                ));
            }
            assert(s1[i].frames_wf(m2)) by {
                assert forall|k: int| 0 <= k < s0[i].frames_seq().len() implies m2.live(
                    (#[trigger] s0[i].frames_seq()[k]).1.ppn.0,
                ) && m2.is_bytes(s0[i].frames_seq()[k].1.ppn.0) by {
                    let fr = s0[i].frames_seq()[k].1.ppn.0;
                    assert(m0.live(fr) && m0.is_bytes(fr));
                    assert(m1.live(fr));
                    assert(m1.fview(fr) == m0.fview(fr));
                    if copied {
                        assert(!a_fin.owns_frame_page(fr)) by {
                            if a_fin.owns_frame_page(fr) {
                                let l = choose|l: int|
                                    0 <= l < a_fin.frames_seq().len() && (
                                    #[trigger] a_fin.frames_seq()[l]).1.ppn.0 == fr;
                                assert(!m0.live(a_fin.frames_seq()[l].1.ppn.0));
                            }
                        }
                        assert(m2.fview(fr) == m1.fview(fr));
                        assert(m2.live(fr));
                    }
                }
            }
        } else {
            assert(s1[i] == a_fin);
        }
    }
    // ranges are pairwise disjoint, including the new area's
    assert forall|i: int, j: int|
        0 <= i < j < s1.len() implies ((#[trigger] s1[i]).hi() <= (#[trigger] s1[j]).lo()
        || s1[j].hi() <= s1[i].lo() || s1[i].lo() == s1[i].hi() || s1[j].lo() == s1[j].hi()) by {
        if j < s0.len() {
            assert(s1[i] == s0[i] && s1[j] == s0[j]);
        } else {
            assert(s1[i] == s0[i] && s1[j] == a_fin);
            if s0[i].lo() != s0[i].hi() && a_fin.lo() != a_fin.hi() && a_fin.lo() < s0[i].hi()
                && s0[i].lo() < a_fin.hi() {
                let v: int = if s0[i].lo() >= a_fin.lo() {
                    s0[i].lo()
                } else {
                    a_fin.lo()
                };
                assert(s0[i].lo() <= v < s0[i].hi());
                assert(a_in.lo() <= v < a_in.hi());
                assert(ms0.pt().spec_resolve(m0, v as u64) is Some);
                assert(!ms0.pt().is_mapped(m0, v as u64));
            }
        }
    }
    // frames are pairwise distinct, including the new area's
    assert forall|i: int, j: int| 0 <= i < j < s1.len() implies frames_disjoint(
        #[trigger] s1[i],
        #[trigger] s1[j],
    ) by {
        if j < s0.len() {
            assert(s1[i] == s0[i] && s1[j] == s0[j]);
            assert(frames_disjoint(s0[i], s0[j]));
        } else {
            assert(s1[i] == s0[i] && s1[j] == a_fin);
            assert forall|k: int, l: int|
                0 <= k < s1[i].frames_seq().len() && 0 <= l < s1[j].frames_seq().len() implies (
            #[trigger] s1[i].frames_seq()[k]).1.ppn.0 != (
            #[trigger] s1[j].frames_seq()[l]).1.ppn.0 by {
                assert(m0.live(s0[i].frames_seq()[k].1.ppn.0));
                assert(!m0.live(a_fin.frames_seq()[l].1.ppn.0));
            }
        }
    }
}

/// The linker-provided section boundaries that fix the kernel's own
/// address-space layout: start and end of text, read-only data, data, bss
/// (with the boot stack), the end of the kernel image, and the physical
/// address of the trampoline code page. All are raw addresses handed in by
/// the boot environment.
#[derive(Clone, Copy, Debug, PartialEq, Eq, Structural)]
pub struct KernelLayout {
    pub stext: u64,
    pub etext: u64,
    pub srodata: u64,
    pub erodata: u64,
    pub sdata: u64,
    pub edata: u64,
    pub sbss_with_stack: u64,
    pub ebss: u64,
    pub ekernel: u64,
    pub strampoline: u64,
}

impl KernelLayout {
    /// The layout is sane: the sections ascend, no two share a page, and
    /// everything lies below the end of physical memory.
    pub open spec fn wf(self) -> bool {
        &&& self.stext <= self.etext
        &&& spec_page_ceil(self.etext as int) <= spec_page_floor(self.srodata as int)
        &&& self.srodata <= self.erodata
        &&& spec_page_ceil(self.erodata as int) <= spec_page_floor(self.sdata as int)
        &&& self.sdata <= self.edata
        &&& spec_page_ceil(self.edata as int) <= spec_page_floor(self.sbss_with_stack as int)
        &&& self.sbss_with_stack <= self.ebss
        &&& spec_page_ceil(self.ebss as int) <= spec_page_floor(self.ekernel as int)
        &&& self.ekernel <= MEMORY_END
    }

    /// The frames that building the kernel space can possibly take: one
    /// root, two for the trampoline path, and each section area's bound.
    pub open spec fn build_cost(self) -> int {
        3 + range_cost(spec_page_floor(self.stext as int), spec_page_ceil(self.etext as int))
            + range_cost(
            spec_page_floor(self.srodata as int),
            spec_page_ceil(self.erodata as int),
        ) + range_cost(spec_page_floor(self.sdata as int), spec_page_ceil(self.edata as int))
            + range_cost(
            spec_page_floor(self.sbss_with_stack as int),
            spec_page_ceil(self.ebss as int),
        ) + range_cost(spec_page_floor(self.ekernel as int), spec_page_ceil(MEMORY_END as int))
    }
}

/// The virtual page of the trampoline: the highest page of the virtual
/// address space.
pub open spec fn trampoline_vpn() -> u64 {
    (VPN_BOUND - 1) as u64
}

/// Page separation implies address order: if the first page boundary at or
/// after `a` is at or before the page of `b`, then `a` is at most `b`.
proof fn lemma_page_sep(a: int, b: int)
    requires
        0 <= a,
        0 <= b,
        spec_page_ceil(a) <= spec_page_floor(b),
    ensures
        a <= b,
{
    if a > b {
        vstd::arithmetic::div_mod::lemma_div_plus_one(b, 4096);
        lemma_div_is_ordered(b + 4096, a + 4095, 4096);
    }
}

/// A half-open address range covers at least its floor-to-ceiling page
/// range in order.
proof fn lemma_section_pages(s: int, e: int)
    requires
        0 <= s <= e,
    ensures
        spec_page_floor(s) <= spec_page_floor(e) <= spec_page_ceil(e),
        spec_page_floor(s) <= spec_page_ceil(e),
{
    lemma_div_is_ordered(s, e, 4096);
    crate::address::lemma_floor_le_ceil(e);
}

impl MemorySet {
    /// Identity-maps the trampoline page: the highest virtual page points
    /// at the physical page holding the trampoline code, readable and
    /// executable, shared verbatim by every address space.
    fn map_trampoline(&mut self, mem: &mut PhysMem, strampoline: PhysAddr)
        requires
            old(self).wf_in(*old(mem)),
            old(mem).wf(),
            strampoline.0 < PA_BOUND,
            old(self).spec_resolve(*old(mem), trampoline_vpn()) == None::<PageTableEntry>,
            old(mem).free_count() >= 2,
        ensures
            final(self).wf_in(*final(mem)),
            final(mem).wf(),
            same_extent(*old(mem), *final(mem)),
            final(self).areas_seq() == old(self).areas_seq(),
            (final(self).spec_resolve(*final(mem), trampoline_vpn()) matches Some(e)
                && e.spec_ppn() == spec_page_floor(strampoline.0 as int) && e.spec_flags().v
                && e.spec_flags().r && e.spec_flags().x && !e.spec_flags().w),
            forall|w: u64|
                w < VPN_BOUND && w != trampoline_vpn() ==> #[trigger] final(self).spec_resolve(
                    *final(mem),
                    w,
                ) == old(self).spec_resolve(*old(mem), w),
            forall|q: u64| old(mem).live(q) ==> #[trigger] final(mem).live(q),
            final(mem).free_count() >= old(mem).free_count() - 2,
            final(mem).alloc_state().top() == old(mem).alloc_state().top(),
    {
        let ghost m0 = *old(mem);
        let ghost ms0 = *old(self);
        proof {
            reveal(MemorySet::wf_in);
            reveal(MemorySet::spec_resolve);
        }
        let vpn = VirtAddr::from(TRAMPOLINE).floor();
        let ppn = strampoline.floor();
        proof {
            assert(TRAMPOLINE % VA_BOUND == VA_BOUND - 4096);
            assert((VA_BOUND - 4096) as int / 4096 == VPN_BOUND - 1);
            assert(vpn.0 == trampoline_vpn());
            assert(strampoline.0 as int / 4096 < PPN_BOUND) by {
                lemma_div_is_ordered(strampoline.0 as int, PA_BOUND as int - 1, 4096);
                assert((PA_BOUND as int - 1) / 4096 == PPN_BOUND - 1);
            }
        }
        let flags = PTEFlags { r: true, x: true, ..PTEFlags::empty() };
        self.page_table.map(mem, vpn, ppn, flags);
        proof {
            lemma_trampoline_keeps_areas(ms0, *self, m0, *mem);
        }
    }

    /// Builds the kernel's own address space: the trampoline page first,
    /// then the kernel's text (read, execute), read-only data (read), data
    /// and bss (read, write), and all remaining physical memory up to the
    /// configured end (read, write), each identity-mapped with the minimal
    /// permissions its contents require.
    #[verifier::rlimit(100)]
    #[verifier::spinoff_prover]
    pub fn new_kernel(mem: &mut PhysMem, layout: KernelLayout) -> (ms: MemorySet)
        requires
            old(mem).wf(),
            layout.wf(),
            old(mem).free_count() >= layout.build_cost(),
        ensures
            final(mem).wf(),
            same_extent(*old(mem), *final(mem)),
            ms.wf_in(*final(mem)),
            ms.areas_seq().len() == 5,
            (ms.spec_resolve(*final(mem), trampoline_vpn()) matches Some(e) && e.spec_ppn()
                == spec_page_floor((layout.strampoline % PA_BOUND) as int) && e.spec_flags().v
                && e.spec_flags().r && e.spec_flags().x && !e.spec_flags().w),
            kernel_sections_recorded(ms, layout),
    {
        let ghost l1 = spec_page_floor(layout.stext as int);
        let ghost h1 = spec_page_ceil(layout.etext as int);
        let ghost l2 = spec_page_floor(layout.srodata as int);
        let ghost h2 = spec_page_ceil(layout.erodata as int);
        let ghost l3 = spec_page_floor(layout.sdata as int);
        let ghost h3 = spec_page_ceil(layout.edata as int);
        let ghost l4 = spec_page_floor(layout.sbss_with_stack as int);
        let ghost h4 = spec_page_ceil(layout.ebss as int);
        let ghost l5 = spec_page_floor(layout.ekernel as int);
        let ghost h5 = spec_page_ceil(MEMORY_END as int);
        proof {
            lemma_section_pages(layout.stext as int, layout.etext as int);
            lemma_section_pages(layout.srodata as int, layout.erodata as int);
            lemma_section_pages(layout.sdata as int, layout.edata as int);
            lemma_section_pages(layout.sbss_with_stack as int, layout.ebss as int);
            lemma_page_sep(layout.ebss as int, layout.ekernel as int);
            lemma_section_pages(layout.ekernel as int, MEMORY_END as int);
            assert(h5 == 0x88000);
            assert(l1 <= h1 <= l2 <= h2 <= l3 <= h3 <= l4 <= h4 <= l5 <= h5 < trampoline_vpn());
            assert(layout.stext % VA_BOUND == layout.stext && layout.etext % VA_BOUND
                == layout.etext && layout.srodata % VA_BOUND == layout.srodata && layout.erodata
                % VA_BOUND == layout.erodata && layout.sdata % VA_BOUND == layout.sdata
                && layout.edata % VA_BOUND == layout.edata && layout.sbss_with_stack % VA_BOUND
                == layout.sbss_with_stack && layout.ebss % VA_BOUND == layout.ebss
                && layout.ekernel % VA_BOUND == layout.ekernel && MEMORY_END % VA_BOUND
                == MEMORY_END) by {
                lemma_page_sep(layout.etext as int, layout.srodata as int);
                lemma_page_sep(layout.erodata as int, layout.sdata as int);
                lemma_page_sep(layout.edata as int, layout.sbss_with_stack as int);
                assert(MEMORY_END < VA_BOUND);
            }
        }
        let mut ms = MemorySet::build_kernel_base(mem, layout);
        let ghost ms_b = ms;
        let ghost m_b = *mem;
        let rw = MapPermission { r: true, w: true, x: false, u: false };
        ms.push_kernel_data_bss(mem, layout);
        let ghost ms_4 = ms;
        let ghost m_4 = *mem;
        proof {
            assert forall|w: u64|
                w < VPN_BOUND && w != trampoline_vpn() && !(l1 <= w < h4) implies
            #[trigger] ms_4.spec_resolve(m_4, w) == None::<PageTableEntry> by {
                assert(ms_4.spec_resolve(m_4, w) == ms_b.spec_resolve(m_b, w));
            }
        }
        ms.push_kernel_section(mem, layout.ekernel, MEMORY_END, rw);
        proof {
            assert(ms.spec_resolve(*mem, trampoline_vpn()) == ms_b.spec_resolve(
                m_b,
                trampoline_vpn(),
            )) by {
                assert(ms.spec_resolve(*mem, trampoline_vpn()) == ms_4.spec_resolve(
                    m_4,
                    trampoline_vpn(),
                ));
                assert(ms_4.spec_resolve(m_4, trampoline_vpn()) == ms_b.spec_resolve(
                    m_b,
                    trampoline_vpn(),
                ));
            }
        }
        ms
    }
}


/// The activation token the trap layer writes to restore the kernel's own
/// translation on entry from user mode.
pub fn kernel_satp(kernel_space: &MemorySet) -> (r: u64)
    requires
        kernel_space.pt().root() < PPN_BOUND,
    ensures
        r == kernel_space.pt().spec_satp(),
{
    kernel_space.satp()
}

/// Boot-time construction of the memory subsystem: builds the frame arena
/// over the pages between the kernel image and the end of memory, then the
/// kernel's own address space inside it. The caller activates the space by
/// writing its token into the hardware register.
pub fn init(layout: KernelLayout) -> (r: (PhysMem, MemorySet))
    requires
        layout.wf(),
        spec_page_floor(MEMORY_END as int) - spec_page_ceil(layout.ekernel as int)
            >= layout.build_cost(),
    ensures
        r.0.wf(),
        r.1.wf_in(r.0),
        r.0.first() == spec_page_ceil(layout.ekernel as int),
        r.0.alloc_state().top() == spec_page_floor(MEMORY_END as int),
        kernel_sections_recorded(r.1, layout),
        (r.1.spec_resolve(r.0, trampoline_vpn()) matches Some(e) && e.spec_ppn()
            == spec_page_floor((layout.strampoline % PA_BOUND) as int) && e.spec_flags().v
            && e.spec_flags().r && e.spec_flags().x && !e.spec_flags().w),
{
    proof {
        assert(MEMORY_END < PA_BOUND);
        assert(layout.ekernel % PA_BOUND == layout.ekernel);
    }
    let mut mem = crate::frame_allocator::init_frame_allocator(PhysAddr::from(layout.ekernel));
    let ms = MemorySet::new_kernel(&mut mem, layout);
    (mem, ms)
}

/// Mapping the trampoline page leaves every recorded area untouched: the
/// trampoline page lies above every mappable area page, so no area's
/// translation or frame changes.
#[verifier::rlimit(100)]
proof fn lemma_trampoline_keeps_areas(ms0: MemorySet, ms1: MemorySet, m0: PhysMem, m2: PhysMem)
    requires
        ms0.wf_in(m0),
        m0.wf(),
        m2.wf(),
        same_extent(m0, m2),
        ms1.areas_seq() == ms0.areas_seq(),
        ms1.pt().root() == ms0.pt().root(),
        ms1.pt().wf_in(m2),
        ms1.pt().nodes_live(m2),
        forall|w: u64|
            w < VPN_BOUND && w != trampoline_vpn() ==> #[trigger] ms1.pt().spec_resolve(m2, w)
                == ms0.pt().spec_resolve(m0, w),
        forall|q: u64| m0.live(q) ==> #[trigger] m2.live(q),
        forall|q: u64|
            m0.is_bytes(q) && m0.live(q) ==> #[trigger] m2.fview(q) == m0.fview(q),
        !ms0.pt().is_mapped(m0, trampoline_vpn()),
    ensures
        ms1.wf_in(m2),
{
    reveal(MemorySet::wf_in);
    reveal(MemorySet::spec_resolve);
    let s0 = ms0.areas_seq();
    assert(ms1.pt().root() < PPN_BOUND) by {
        assert(m2.live(ms1.pt().root()));
    }
    assert forall|i: int|
        0 <= i < s0.len() implies (#[trigger] ms1.areas_seq()[i]).wf()
        && ms1.areas_seq()[i].frames_wf(m2) && ms1.areas_seq()[i].mapped_in(ms1.pt(), m2) by {
        assert(ms1.areas_seq()[i] == s0[i]);
        assert(s0[i].wf() && s0[i].frames_wf(m0) && s0[i].mapped_in(ms0.pt(), m0));
        assert(s0[i].frames_wf(m2)) by {
            assert forall|k: int| 0 <= k < s0[i].frames_seq().len() implies m2.live(
                (#[trigger] s0[i].frames_seq()[k]).1.ppn.0,
            ) && m2.is_bytes(s0[i].frames_seq()[k].1.ppn.0) by {
                assert(m0.live(s0[i].frames_seq()[k].1.ppn.0) && m0.is_bytes(
                    s0[i].frames_seq()[k].1.ppn.0,
                ));
                assert(m2.fview(s0[i].frames_seq()[k].1.ppn.0) == m0.fview(
                    s0[i].frames_seq()[k].1.ppn.0,
                ));
            }
        }
        assert forall|v: int|
            s0[i].lo() <= v < s0[i].hi() implies ((#[trigger] ms1.pt().spec_resolve(m2, v as u64))
            matches Some(e) && e.spec_ppn() == s0[i].spec_target(v) && e.spec_flags()
            == flags_with_valid(s0[i].perm().spec_pte_flags())) by {
            assert(v < VPN_BOUND);
            assert(v as u64 != trampoline_vpn()) by {
                if v as u64 == trampoline_vpn() {
                    assert(ms0.pt().spec_resolve(m0, v as u64) is Some);
                }
            }
            assert(ms1.pt().spec_resolve(m2, v as u64) == ms0.pt().spec_resolve(m0, v as u64));
        }
    }
}

impl MemorySet {
    /// Installs one identity-mapped kernel section covering the pages of
    /// `[s, e)` with the given permissions.
    #[verifier::rlimit(100)]
    #[verifier::spinoff_prover]
    fn push_kernel_section(&mut self, mem: &mut PhysMem, s: u64, e: u64, perm: MapPermission)
        requires
            old(self).wf_in(*old(mem)),
            old(mem).wf(),
            s <= e < VA_BOUND,
            forall|v: int|
                spec_page_floor(s as int) <= v < spec_page_ceil(e as int) ==> #[trigger] old(
                    self,
                ).spec_resolve(*old(mem), v as u64) == None::<PageTableEntry>,
            old(mem).free_count() >= range_cost(spec_page_floor(s as int), spec_page_ceil(e as int)),
        ensures
            final(self).wf_in(*final(mem)),
            final(mem).wf(),
            same_extent(*old(mem), *final(mem)),
            final(self).areas_seq().len() == old(self).areas_seq().len() + 1,
            forall|i: int|
                0 <= i < old(self).areas_seq().len() ==> #[trigger] final(self).areas_seq()[i]
                    == old(self).areas_seq()[i],
            final(self).areas_seq().last().lo() == spec_page_floor(s as int),
            final(self).areas_seq().last().hi() == spec_page_ceil(e as int),
            final(self).areas_seq().last().ty() == MapType::Identical,
            final(self).areas_seq().last().perm() == perm,
            forall|w: u64|
                w < VPN_BOUND && !(spec_page_floor(s as int) <= w < spec_page_ceil(e as int))
                    ==> #[trigger] final(self).spec_resolve(*final(mem), w)
                    == old(self).spec_resolve(*old(mem), w),
            final(mem).free_count() >= old(mem).free_count() - range_cost(
                spec_page_floor(s as int),
                spec_page_ceil(e as int),
            ),
            final(mem).alloc_state().top() == old(mem).alloc_state().top(),
    {
        let area = MapArea::new(VirtAddr::from(s), VirtAddr::from(e), MapType::Identical, perm);
        proof {
            assert(s % VA_BOUND == s && e % VA_BOUND == e);
        }
        self.push(mem, area, None);
    }
}

impl MemorySet {
    /// The first stage of building the kernel space: a fresh table, the
    /// trampoline page, and the identity-mapped text and read-only-data
    /// sections.
    #[verifier::rlimit(100)]
    #[verifier::spinoff_prover]
    fn build_kernel_base(mem: &mut PhysMem, layout: KernelLayout) -> (ms: MemorySet)
        requires
            old(mem).wf(),
            layout.wf(),
            old(mem).free_count() >= 3 + range_cost(
                spec_page_floor(layout.stext as int),
                spec_page_ceil(layout.etext as int),
            ) + range_cost(
                spec_page_floor(layout.srodata as int),
                spec_page_ceil(layout.erodata as int),
            ),
        ensures
            final(mem).wf(),
            same_extent(*old(mem), *final(mem)),
            ms.wf_in(*final(mem)),
            ms.areas_seq().len() == 2,
            ms.areas_seq()[0].lo() == spec_page_floor(layout.stext as int)
                && ms.areas_seq()[0].hi() == spec_page_ceil(layout.etext as int)
                && ms.areas_seq()[0].ty() == MapType::Identical && ms.areas_seq()[0].perm() == (
            MapPermission { r: true, w: false, x: true, u: false }),
            ms.areas_seq()[1].lo() == spec_page_floor(layout.srodata as int)
                && ms.areas_seq()[1].hi() == spec_page_ceil(layout.erodata as int)
                && ms.areas_seq()[1].ty() == MapType::Identical && ms.areas_seq()[1].perm() == (
            MapPermission { r: true, w: false, x: false, u: false }),
            (ms.spec_resolve(*final(mem), trampoline_vpn()) matches Some(e) && e.spec_ppn()
                == spec_page_floor((layout.strampoline % PA_BOUND) as int) && e.spec_flags().v
                && e.spec_flags().r && e.spec_flags().x && !e.spec_flags().w),
            forall|w: u64|
                w < VPN_BOUND && w != trampoline_vpn() && !(spec_page_floor(layout.stext as int)
                    <= w < spec_page_ceil(layout.etext as int)) && !(spec_page_floor(
                    layout.srodata as int,
                ) <= w < spec_page_ceil(layout.erodata as int)) ==> #[trigger] ms.spec_resolve(
                    *final(mem),
                    w,
                ) == None::<PageTableEntry>,
            final(mem).free_count() >= old(mem).free_count() - 3 - range_cost(
                spec_page_floor(layout.stext as int),
                spec_page_ceil(layout.etext as int),
            ) - range_cost(
                spec_page_floor(layout.srodata as int),
                spec_page_ceil(layout.erodata as int),
            ),
            final(mem).alloc_state().top() == old(mem).alloc_state().top(),
    {
        proof {
            lemma_section_pages(layout.stext as int, layout.etext as int);
            lemma_section_pages(layout.srodata as int, layout.erodata as int);
            lemma_page_sep(layout.etext as int, layout.srodata as int);
            lemma_page_sep(layout.ebss as int, layout.ekernel as int);
            lemma_section_pages(layout.ekernel as int, MEMORY_END as int);
            assert(spec_page_ceil(MEMORY_END as int) == 0x88000);
            assert(MEMORY_END < VA_BOUND && MEMORY_END < PA_BOUND);
        }
        let ghost m0 = *old(mem);
        let mut ms = MemorySet::build_kernel_trampoline(mem, layout.strampoline);
        let ghost ms_b = ms;
        let ghost m_b = *mem;
        let rx = MapPermission { r: true, w: false, x: true, u: false };
        let ro = MapPermission { r: true, w: false, x: false, u: false };
        ms.push_kernel_section(mem, layout.stext, layout.etext, rx);
        let ghost ms_1 = ms;
        let ghost m_1 = *mem;
        proof {
            assert forall|w: u64|
                w < VPN_BOUND && w != trampoline_vpn() && !(spec_page_floor(layout.stext as int)
                    <= w < spec_page_ceil(layout.etext as int)) implies
            #[trigger] ms_1.spec_resolve(m_1, w) == None::<PageTableEntry> by {
                assert(ms_1.spec_resolve(m_1, w) == ms_b.spec_resolve(m_b, w));
            }
        }
        ms.push_kernel_section(mem, layout.srodata, layout.erodata, ro);
        proof {
            assert(ms.spec_resolve(*mem, trampoline_vpn()) == ms_b.spec_resolve(
                m_b,
                trampoline_vpn(),
            )) by {
                assert(ms.spec_resolve(*mem, trampoline_vpn()) == ms_1.spec_resolve(
                    m_1,
                    trampoline_vpn(),
                ));
                assert(ms_1.spec_resolve(m_1, trampoline_vpn()) == ms_b.spec_resolve(
                    m_b,
                    trampoline_vpn(),
                ));
            }
            assert forall|w: u64|
                w < VPN_BOUND && w != trampoline_vpn() && !(spec_page_floor(layout.stext as int)
                    <= w < spec_page_ceil(layout.etext as int)) && !(spec_page_floor(
                    layout.srodata as int,
                ) <= w < spec_page_ceil(layout.erodata as int)) implies #[trigger] ms.spec_resolve(
                *mem,
                w,
            ) == None::<PageTableEntry> by {
                assert(ms.spec_resolve(*mem, w) == ms_1.spec_resolve(m_1, w));
            }
        }
        ms
    }
}

impl MemorySet {
    /// The very first stage of building the kernel space: a fresh table
    /// with only the trampoline page installed.
    #[verifier::rlimit(100)]
    #[verifier::spinoff_prover]
    fn build_kernel_trampoline(mem: &mut PhysMem, strampoline: u64) -> (ms: MemorySet)
        requires
            old(mem).wf(),
            old(mem).free_count() >= 3,
        ensures
            final(mem).wf(),
            same_extent(*old(mem), *final(mem)),
            ms.wf_in(*final(mem)),
            ms.areas_seq().len() == 0,
            (ms.spec_resolve(*final(mem), trampoline_vpn()) matches Some(e) && e.spec_ppn()
                == spec_page_floor((strampoline % PA_BOUND) as int) && e.spec_flags().v
                && e.spec_flags().r && e.spec_flags().x && !e.spec_flags().w),
            forall|w: u64|
                w < VPN_BOUND && w != trampoline_vpn() ==> #[trigger] ms.spec_resolve(
                    *final(mem),
                    w,
                ) == None::<PageTableEntry>,
            final(mem).free_count() >= old(mem).free_count() - 3,
            final(mem).alloc_state().top() == old(mem).alloc_state().top(),
    {
        let mut ms = MemorySet::new(mem);
        let ghost ms_a = ms;
        let ghost m_a = *mem;
        ms.map_trampoline(mem, PhysAddr::from(strampoline));
        proof {
            assert forall|w: u64|
                w < VPN_BOUND && w != trampoline_vpn() implies #[trigger] ms.spec_resolve(
                *mem,
                w,
            ) == None::<PageTableEntry> by {
                assert(ms.spec_resolve(*mem, w) == ms_a.spec_resolve(m_a, w));
            }
        }
        ms
    }
}

impl MemorySet {
    /// The middle stage of building the kernel space: the identity-mapped
    /// data and bss sections.
    #[verifier::rlimit(100)]
    #[verifier::spinoff_prover]
    fn push_kernel_data_bss(&mut self, mem: &mut PhysMem, layout: KernelLayout)
        requires
            old(self).wf_in(*old(mem)),
            old(mem).wf(),
            layout.wf(),
            old(self).areas_seq().len() == 2,
            forall|v: int|
                spec_page_floor(layout.sdata as int) <= v < spec_page_ceil(layout.ebss as int)
                    ==> #[trigger] old(self).spec_resolve(*old(mem), v as u64)
                    == None::<PageTableEntry>,
            old(mem).free_count() >= range_cost(
                spec_page_floor(layout.sdata as int),
                spec_page_ceil(layout.edata as int),
            ) + range_cost(
                spec_page_floor(layout.sbss_with_stack as int),
                spec_page_ceil(layout.ebss as int),
            ),
        ensures
            final(self).wf_in(*final(mem)),
            final(mem).wf(),
            same_extent(*old(mem), *final(mem)),
            final(self).areas_seq().len() == 4,
            final(self).areas_seq()[0] == old(self).areas_seq()[0],
            final(self).areas_seq()[1] == old(self).areas_seq()[1],
            final(self).areas_seq()[2].lo() == spec_page_floor(layout.sdata as int),
            final(self).areas_seq()[2].hi() == spec_page_ceil(layout.edata as int),
            final(self).areas_seq()[2].ty() == MapType::Identical,
            final(self).areas_seq()[2].perm() == (MapPermission {
                r: true,
                w: true,
                x: false,
                u: false,
            }),
            final(self).areas_seq()[3].lo() == spec_page_floor(layout.sbss_with_stack as int),
            final(self).areas_seq()[3].hi() == spec_page_ceil(layout.ebss as int),
            final(self).areas_seq()[3].ty() == MapType::Identical,
            final(self).areas_seq()[3].perm() == (MapPermission {
                r: true,
                w: true,
                x: false,
                u: false,
            }),
            forall|w: u64|
                w < VPN_BOUND && !(spec_page_floor(layout.sdata as int) <= w < spec_page_ceil(
                    layout.ebss as int,
                )) ==> #[trigger] final(self).spec_resolve(*final(mem), w) == old(
                    self,
                ).spec_resolve(*old(mem), w),
            final(mem).free_count() >= old(mem).free_count() - range_cost(
                spec_page_floor(layout.sdata as int),
                spec_page_ceil(layout.edata as int),
            ) - range_cost(
                spec_page_floor(layout.sbss_with_stack as int),
                spec_page_ceil(layout.ebss as int),
            ),
            final(mem).alloc_state().top() == old(mem).alloc_state().top(),
    {
        proof {
            lemma_section_pages(layout.sdata as int, layout.edata as int);
            lemma_section_pages(layout.sbss_with_stack as int, layout.ebss as int);
            lemma_page_sep(layout.edata as int, layout.sbss_with_stack as int);
            lemma_page_sep(layout.ebss as int, layout.ekernel as int);
            assert(layout.sdata < VA_BOUND && layout.edata < VA_BOUND && layout.sbss_with_stack
                < VA_BOUND && layout.ebss < VA_BOUND) by {
                assert(MEMORY_END < VA_BOUND);
            }
        }
        let ghost ms0 = *old(self);
        let ghost m0 = *old(mem);
        let rw = MapPermission { r: true, w: true, x: false, u: false };
        self.push_kernel_section(mem, layout.sdata, layout.edata, rw);
        let ghost ms_3 = *self;
        let ghost m_3 = *mem;
        self.push_kernel_section(mem, layout.sbss_with_stack, layout.ebss, rw);
        proof {
            assert forall|w: u64|
                w < VPN_BOUND && !(spec_page_floor(layout.sdata as int) <= w < spec_page_ceil(
                    layout.ebss as int,
                )) implies #[trigger] self.spec_resolve(*mem, w) == ms0.spec_resolve(m0, w) by {
                assert(self.spec_resolve(*mem, w) == ms_3.spec_resolve(m_3, w));
            }
        }
    }
}

/// The five areas of a built kernel space, in push order: text, read-only
/// data, data, bss, and the remaining physical memory, each identity
/// mapped with its section's permissions.
pub open spec fn kernel_sections_recorded(ms: MemorySet, layout: KernelLayout) -> bool {
    &&& ms.areas_seq().len() == 5
    &&& ms.areas_seq()[0].lo() == spec_page_floor(layout.stext as int)
    &&& ms.areas_seq()[0].hi() == spec_page_ceil(layout.etext as int)
    &&& ms.areas_seq()[0].ty() == MapType::Identical
    &&& ms.areas_seq()[0].perm() == (MapPermission { r: true, w: false, x: true, u: false })
    &&& ms.areas_seq()[1].lo() == spec_page_floor(layout.srodata as int)
    &&& ms.areas_seq()[1].hi() == spec_page_ceil(layout.erodata as int)
    &&& ms.areas_seq()[1].ty() == MapType::Identical
    &&& ms.areas_seq()[1].perm() == (MapPermission { r: true, w: false, x: false, u: false })
    &&& ms.areas_seq()[2].lo() == spec_page_floor(layout.sdata as int)
    &&& ms.areas_seq()[2].hi() == spec_page_ceil(layout.edata as int)
    &&& ms.areas_seq()[2].ty() == MapType::Identical
    &&& ms.areas_seq()[2].perm() == (MapPermission { r: true, w: true, x: false, u: false })
    &&& ms.areas_seq()[3].lo() == spec_page_floor(layout.sbss_with_stack as int)
    &&& ms.areas_seq()[3].hi() == spec_page_ceil(layout.ebss as int)
    &&& ms.areas_seq()[3].ty() == MapType::Identical
    &&& ms.areas_seq()[3].perm() == (MapPermission { r: true, w: true, x: false, u: false })
    &&& ms.areas_seq()[4].lo() == spec_page_floor(layout.ekernel as int)
    &&& ms.areas_seq()[4].hi() == spec_page_ceil(MEMORY_END as int)
    &&& ms.areas_seq()[4].ty() == MapType::Identical
    &&& ms.areas_seq()[4].perm() == (MapPermission { r: true, w: true, x: false, u: false })
}

/// Every page of a recorded identity-mapped area resolves to itself with
/// the area's permissions, Valid forced on.
pub proof fn lemma_identical_area_resolve(ms: MemorySet, mem: PhysMem, i: int, v: int)
    requires
        ms.wf_in(mem),
        0 <= i < ms.areas_seq().len(),
        ms.areas_seq()[i].ty() == MapType::Identical,
        ms.areas_seq()[i].lo() <= v < ms.areas_seq()[i].hi(),
    ensures
        ms.spec_resolve(mem, v as u64) matches Some(e) && e.spec_ppn() == v && e.spec_flags()
            == flags_with_valid(ms.areas_seq()[i].perm().spec_pte_flags()),
{
    reveal(MemorySet::wf_in);
    reveal(MemorySet::spec_resolve);
    let a = ms.areas_seq()[i];
    assert(a.wf() && a.mapped_in(ms.pt(), mem));
    assert(a.spec_target(v) == v);
}

/// Opens the address-space invariant for a push: the page table is well
/// formed with live nodes, and every page of the new range is unmapped at
/// the table level.
proof fn lemma_push_prepare(ms0: MemorySet, m0: PhysMem, map_area: MapArea)
    requires
        ms0.wf_in(m0),
        forall|v: int|
            map_area.lo() <= v < map_area.hi() ==> #[trigger] ms0.spec_resolve(m0, v as u64)
                == None::<PageTableEntry>,
    ensures
        ms0.pt().wf_in(m0),
        ms0.pt().nodes_live(m0),
        forall|v: int|
            map_area.lo() <= v < map_area.hi() ==> !#[trigger] ms0.pt().is_mapped(m0, v as u64),
{
    reveal(MemorySet::wf_in);
    reveal(MemorySet::spec_resolve);
    assert forall|v: int|
        map_area.lo() <= v < map_area.hi() implies !#[trigger] ms0.pt().is_mapped(
        m0,
        v as u64,
    ) by {
        assert(ms0.spec_resolve(m0, v as u64) == None::<PageTableEntry>);
    }
}

/// A well-formed address space has a representable root page number, so
/// its activation token can always be formed.
pub proof fn lemma_wf_in_root_bound(ms: MemorySet, mem: PhysMem)
    requires
        ms.wf_in(mem),
    ensures
        ms.pt().root() < PPN_BOUND,
{
    reveal(MemorySet::wf_in);
}

/// Freeing the frame of the page being unmapped extends the freed-key
/// prefix by exactly that page.
#[verifier::rlimit(100)]
#[verifier::spinoff_prover]
proof fn lemma_unmap_live_step(
    a_0: MapArea,
    a_prev: MapArea,
    m0: PhysMem,
    m_prev: PhysMem,
    m_now: PhysMem,
    cur: u64,
)
    requires
        a_0.wf(),
        a_0.lo() <= cur < a_0.hi(),
        a_prev.ty() == a_0.ty(),
        forall|q: u64|
            #[trigger] m_prev.live(q) == (m0.live(q) && !a_0.owns_frame_page_below(
                q,
                cur as int,
            )),
        a_0.ty() is Framed ==> a_0.has_frame(cur as int) && a_prev.frame_ppn_of(cur as int)
            == a_0.frame_ppn_of(cur as int),
        if a_0.ty() is Framed {
            forall|q: u64|
                #[trigger] m_now.live(q) == (m_prev.live(q) && q != a_prev.frame_ppn_of(
                    cur as int,
                ))
        } else {
            forall|q: u64| #[trigger] m_now.live(q) == m_prev.live(q)
        },
    ensures
        forall|q: u64|
            #[trigger] m_now.live(q) == (m0.live(q) && !a_0.owns_frame_page_below(
                q,
                cur + 1 as int,
            )),
{
    assert forall|q: u64|
        #[trigger] m_now.live(q) == (m0.live(q) && !a_0.owns_frame_page_below(
        q,
        cur + 1 as int,
    )) by {
        if a_0.ty() is Framed {
            let freed = a_prev.frame_ppn_of(cur as int);
            assert(freed == a_0.frame_ppn_of(cur as int));
            assert(m_now.live(q) == (m_prev.live(q) && q != freed));
            assert(a_0.owns_frame_page_below(q, cur + 1 as int) == (a_0.owns_frame_page_below(
                q,
                cur as int,
            ) || q == freed)) by {
                if a_0.owns_frame_page_below(q, cur + 1 as int) {
                    let k = choose|k: int|
                        0 <= k < a_0.frames_seq().len() && (
                        #[trigger] a_0.frames_seq()[k]).1.ppn.0 == q && a_0.frames_seq()[k].0.0
                            < cur + 1;
                    if a_0.frames_seq()[k].0.0 == cur {
                        lemma_frame_ppn_at(a_0, k);
                    }
                }
                if q == freed {
                    let k = a_0.frame_index_of(cur as int);
                    assert(a_0.frames_seq()[k].0.0 == cur && a_0.frames_seq()[k].1.ppn.0 == q);
                }
            }
        } else {
            assert(a_0.frames_seq().len() == 0);
            assert(m_now.live(q) == m_prev.live(q));
            assert(!a_0.owns_frame_page_below(q, cur as int));
            assert(!a_0.owns_frame_page_below(q, cur + 1 as int));
        }
    }
}

/// One step of the area-unmapping loop keeps the translation invariants:
/// the prefix up to and including the handled page resolves to nothing,
/// everything outside it is as at the start, and the rest of the range is
/// still mapped.
#[verifier::rlimit(100)]
#[verifier::spinoff_prover]
proof fn lemma_unmap_resolve_step(
    pt_0: PageTable,
    pt_prev: PageTable,
    pt_now: PageTable,
    m0: PhysMem,
    m_prev: PhysMem,
    m_now: PhysMem,
    lo: int,
    hi: int,
    cur: u64,
)
    requires
        0 <= lo <= cur < hi <= VPN_BOUND,
        pt_now.spec_resolve(m_now, cur) == None::<PageTableEntry>,
        forall|w: u64|
            w < VPN_BOUND && w != cur ==> #[trigger] pt_now.spec_resolve(m_now, w)
                == pt_prev.spec_resolve(m_prev, w),
        forall|v: int|
            lo <= v < cur ==> #[trigger] pt_prev.spec_resolve(m_prev, v as u64)
                == None::<PageTableEntry>,
        forall|w: u64|
            w < VPN_BOUND && !(lo <= w < cur) ==> #[trigger] pt_prev.spec_resolve(m_prev, w)
                == pt_0.spec_resolve(m0, w),
        forall|v: int|
            cur <= v < hi ==> ((#[trigger] pt_prev.spec_resolve(m_prev, v as u64)) is Some),
    ensures
        forall|v: int|
            lo <= v < cur + 1 ==> #[trigger] pt_now.spec_resolve(m_now, v as u64)
                == None::<PageTableEntry>,
        forall|w: u64|
            w < VPN_BOUND && !(lo <= w < cur + 1) ==> #[trigger] pt_now.spec_resolve(m_now, w)
                == pt_0.spec_resolve(m0, w),
        forall|v: int|
            cur + 1 <= v < hi ==> ((#[trigger] pt_now.spec_resolve(m_now, v as u64)) is Some),
{
    assert forall|v: int|
        lo <= v < cur + 1 implies #[trigger] pt_now.spec_resolve(m_now, v as u64)
        == None::<PageTableEntry> by {
        if v < cur {
            assert(pt_now.spec_resolve(m_now, v as u64) == pt_prev.spec_resolve(
                m_prev,
                v as u64,
            ));
        } else {
            assert(v as u64 == cur);
        }
    }
    assert forall|w: u64|
        w < VPN_BOUND && !(lo <= w < cur + 1) implies #[trigger] pt_now.spec_resolve(m_now, w)
        == pt_0.spec_resolve(m0, w) by {
        assert(pt_now.spec_resolve(m_now, w) == pt_prev.spec_resolve(m_prev, w));
    }
    assert forall|v: int|
        cur + 1 <= v < hi implies ((#[trigger] pt_now.spec_resolve(m_now, v as u64)) is Some) by {
        assert(pt_now.spec_resolve(m_now, v as u64) == pt_prev.spec_resolve(m_prev, v as u64));
    }
}

/// The next frame of the area being recycled is still a live data frame:
/// it is not among the frames already freed, not owned by an area freed
/// earlier, and distinct within its own area.
#[verifier::rlimit(100)]
#[verifier::spinoff_prover]
proof fn lemma_recycle_frame_live(
    ms0: MemorySet,
    removed: MapArea,
    m0: PhysMem,
    m_prev: PhysMem,
    n: int,
    j: int,
)
    requires
        ms0.wf_in(m0),
        m0.wf(),
        0 <= n - 1 < ms0.areas_seq().len(),
        removed == ms0.areas_seq()[n - 1],
        0 <= j < removed.frames_seq().len(),
        forall|q: u64|
            #[trigger] m_prev.live(q) == (m0.live(q) && !owned_by_suffix(ms0.areas_seq(), n, q)
                && !removed.owns_frame_among(j, q)),
    ensures
        m_prev.live(removed.frames_seq()[j].1.ppn.0),
        m0.is_bytes(removed.frames_seq()[j].1.ppn.0),
{
    reveal(MemorySet::wf_in);
    let q = removed.frames_seq()[j].1.ppn.0;
    assert(removed.frames_wf(m0));
    assert(m0.live(q) && m0.is_bytes(q));
    assert(!owned_by_suffix(ms0.areas_seq(), n, q)) by {
        if owned_by_suffix(ms0.areas_seq(), n, q) {
            let i = choose|i: int|
                n <= i < ms0.areas_seq().len() && (#[trigger] ms0.areas_seq()[i]).owns_frame_page(
                    q,
                );
            let l = choose|l: int|
                0 <= l < ms0.areas_seq()[i].frames_seq().len() && (
                #[trigger] ms0.areas_seq()[i].frames_seq()[l]).1.ppn.0 == q;
            assert(frames_disjoint(ms0.areas_seq()[n - 1], ms0.areas_seq()[i]));
        }
    }
    assert(!removed.owns_frame_among(j, q)) by {
        if removed.owns_frame_among(j, q) {
            let k = choose|k: int|
                0 <= k < j && k < removed.frames_seq().len() && (
                #[trigger] removed.frames_seq()[k]).1.ppn.0 == q;
        }
    }
}

} // verus!
