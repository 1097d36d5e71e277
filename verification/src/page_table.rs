//! Page-table entries and the three-level page table.
//!
//! An entry is one 64-bit hardware word: a 10-bit flag field in bits
//! `[0, 10)` and the physical page number in bits `[10, 10 + PPN_WIDTH)`.
//! The flag field is handled through [`PTEFlags`], a decoded view holding
//! one `bool` per hardware flag bit.

use vstd::arithmetic::div_mod::{
    lemma_div_denominator, lemma_fundamental_div_mod_converse, lemma_mod_mod,
};
use vstd::prelude::*;

use crate::address::{vpn_i0, vpn_i1, vpn_i2, PhysPageNum, VirtPageNum};
use crate::config::{PPN_BOUND, SATP_PPN_BOUND, VPN_BOUND};
use crate::frame_allocator::{
    frame_alloc, frames_unchanged_except, same_extent, FrameTracker, PhysMem,
};

verus! {

/// The decoded flag field of a page-table entry, one `bool` per hardware
/// bit: Valid, Read, Write, eXecute, User, Global, Accessed, Dirty, and the
/// two reserved bits.
#[derive(Clone, Copy, Debug, PartialEq, Eq, Structural)]
pub struct PTEFlags {
    pub v: bool,
    pub r: bool,
    pub w: bool,
    pub x: bool,
    pub u: bool,
    pub g: bool,
    pub a: bool,
    pub d: bool,
    pub rsv0: bool,
    pub rsv1: bool,
}

/// The 10-bit encoding of a flag set, bit 0 = Valid ... bit 9 = reserved.
pub open spec fn spec_flag_bits(f: PTEFlags) -> u64 {
    ((if f.v {
        1int
    } else {
        0int
    }) + (if f.r {
        2int
    } else {
        0int
    }) + (if f.w {
        4int
    } else {
        0int
    }) + (if f.x {
        8int
    } else {
        0int
    }) + (if f.u {
        16int
    } else {
        0int
    }) + (if f.g {
        32int
    } else {
        0int
    }) + (if f.a {
        64int
    } else {
        0int
    }) + (if f.d {
        128int
    } else {
        0int
    }) + (if f.rsv0 {
        256int
    } else {
        0int
    }) + (if f.rsv1 {
        512int
    } else {
        0int
    })) as u64
}

/// The decoding of a 10-bit flag word into its individual flags.
pub open spec fn spec_flags_of_bits(b: u64) -> PTEFlags {
    PTEFlags {
        v: b % 2 == 1,
        r: (b / 2) % 2 == 1,
        w: (b / 4) % 2 == 1,
        x: (b / 8) % 2 == 1,
        u: (b / 16) % 2 == 1,
        g: (b / 32) % 2 == 1,
        a: (b / 64) % 2 == 1,
        d: (b / 128) % 2 == 1,
        rsv0: (b / 256) % 2 == 1,
        rsv1: (b / 512) % 2 == 1,
    }
}

/// Decoding inverts encoding: every flag set survives a round trip through
/// its 10-bit word.
#[verifier::rlimit(100)]
pub proof fn lemma_flags_roundtrip(f: PTEFlags)
    ensures
        spec_flag_bits(f) < 1024,
        spec_flags_of_bits(spec_flag_bits(f)) == f,
{
    let vv: int = if f.v { 1 } else { 0 };
    let rr: int = if f.r { 1 } else { 0 };
    let ww: int = if f.w { 1 } else { 0 };
    let xx: int = if f.x { 1 } else { 0 };
    let uu: int = if f.u { 1 } else { 0 };
    let gg: int = if f.g { 1 } else { 0 };
    let aa: int = if f.a { 1 } else { 0 };
    let dd: int = if f.d { 1 } else { 0 };
    let r0: int = if f.rsv0 { 1 } else { 0 };
    let r1: int = if f.rsv1 { 1 } else { 0 };
    let s9 = r1;
    let s8 = r0 + 2 * s9;
    let s7 = dd + 2 * s8;
    let s6 = aa + 2 * s7;
    let s5 = gg + 2 * s6;
    let s4 = uu + 2 * s5;
    let s3 = xx + 2 * s4;
    let s2 = ww + 2 * s3;
    let s1 = rr + 2 * s2;
    let b = vv + 2 * s1;
    assert(b == spec_flag_bits(f));
    lemma_fundamental_div_mod_converse(b, 2, s1, vv);
    lemma_fundamental_div_mod_converse(s1, 2, s2, rr);
    lemma_fundamental_div_mod_converse(s2, 2, s3, ww);
    lemma_fundamental_div_mod_converse(s3, 2, s4, xx);
    lemma_fundamental_div_mod_converse(s4, 2, s5, uu);
    lemma_fundamental_div_mod_converse(s5, 2, s6, gg);
    lemma_fundamental_div_mod_converse(s6, 2, s7, aa);
    lemma_fundamental_div_mod_converse(s7, 2, s8, dd);
    lemma_fundamental_div_mod_converse(s8, 2, s9, r0);
    lemma_fundamental_div_mod_converse(s9, 2, 0, r1);
    lemma_div_denominator(b, 2, 2);
    lemma_div_denominator(b, 4, 2);
    lemma_div_denominator(b, 8, 2);
    lemma_div_denominator(b, 16, 2);
    lemma_div_denominator(b, 32, 2);
    lemma_div_denominator(b, 64, 2);
    lemma_div_denominator(b, 128, 2);
    lemma_div_denominator(b, 256, 2);
    assert(b / 2 == s1 && s1 / 2 == s2 && s2 / 2 == s3 && s3 / 2 == s4 && s4 / 2 == s5 && s5 / 2
        == s6 && s6 / 2 == s7 && s7 / 2 == s8 && s8 / 2 == s9);
    assert(b / 4 == s2 && b / 8 == s3 && b / 16 == s4 && b / 32 == s5 && b / 64 == s6 && b / 128
        == s7 && b / 256 == s8 && b / 512 == s9);
}

impl PTEFlags {
    /// The flag set with no bit raised.
    pub fn empty() -> (f: PTEFlags)
        ensures
            f == spec_flags_of_bits(0),
            spec_flag_bits(f) == 0,
    {
        PTEFlags {
            v: false,
            r: false,
            w: false,
            x: false,
            u: false,
            g: false,
            a: false,
            d: false,
            rsv0: false,
            rsv1: false,
        }
    }

    /// The 10-bit hardware encoding of this flag set.
    pub fn bits(&self) -> (b: u64)
        ensures
            b == spec_flag_bits(*self),
            b < 1024,
    {
        proof {
            lemma_flags_roundtrip(*self);
        }
        (if self.v {
            1u64
        } else {
            0u64
        }) + (if self.r {
            2u64
        } else {
            0u64
        }) + (if self.w {
            4u64
        } else {
            0u64
        }) + (if self.x {
            8u64
        } else {
            0u64
        }) + (if self.u {
            16u64
        } else {
            0u64
        }) + (if self.g {
            32u64
        } else {
            0u64
        }) + (if self.a {
            64u64
        } else {
            0u64
        }) + (if self.d {
            128u64
        } else {
            0u64
        }) + (if self.rsv0 {
            256u64
        } else {
            0u64
        }) + (if self.rsv1 {
            512u64
        } else {
            0u64
        })
    }

    /// Decodes a 10-bit word; rejects a word with bits above the flag field.
    pub fn from_bits(b: u64) -> (r: Option<PTEFlags>)
        ensures
            match r {
                Some(f) => b < 1024 && f == spec_flags_of_bits(b),
                None => b >= 1024,
            },
    {
        if b < 1024 {
            Some(
                PTEFlags {
                    v: b % 2 == 1,
                    r: (b / 2) % 2 == 1,
                    w: (b / 4) % 2 == 1,
                    x: (b / 8) % 2 == 1,
                    u: (b / 16) % 2 == 1,
                    g: (b / 32) % 2 == 1,
                    a: (b / 64) % 2 == 1,
                    d: (b / 128) % 2 == 1,
                    rsv0: (b / 256) % 2 == 1,
                    rsv1: (b / 512) % 2 == 1,
                },
            )
        } else {
            None
        }
    }
}

/// One translation record: a single 64-bit word holding a physical page
/// number and the flag field.
#[derive(Clone, Copy, Debug, PartialEq, Eq, Structural)]
pub struct PageTableEntry(pub u64);

impl PageTableEntry {
    /// The physical page number carried in bits `[10, 52)`.
    pub open spec fn spec_ppn(self) -> u64 {
        ((self.0 as int / 1024) % (PPN_BOUND as int)) as u64
    }

    /// The decoded flag field carried in bits `[0, 10)`.
    pub open spec fn spec_flags(self) -> PTEFlags {
        spec_flags_of_bits((self.0 % 1024) as u64)
    }

    /// Whether the Valid bit is raised. An entry without it carries no
    /// meaningful page number and must never be followed.
    pub open spec fn spec_valid(self) -> bool {
        self.spec_flags().v
    }

    /// Packs a page number and flag set into the hardware word.
    pub fn new(ppn: PhysPageNum, flags: PTEFlags) -> (r: PageTableEntry)
        requires
            ppn.0 < PPN_BOUND,
        ensures
            r.0 == ppn.0 * 1024 + spec_flag_bits(flags),
            r.spec_ppn() == ppn.0,
            r.spec_flags() == flags,
            r.spec_valid() == flags.v,
    {
        proof {
            lemma_flags_roundtrip(flags);
            lemma_fundamental_div_mod_converse(
                ppn.0 * 1024 + spec_flag_bits(flags),
                1024,
                ppn.0 as int,
                spec_flag_bits(flags) as int,
            );
        }
        PageTableEntry(ppn.0 * 1024 + flags.bits())
    }

    /// The all-zero entry: no flags, no page number, not valid.
    pub fn empty() -> (r: PageTableEntry)
        ensures
            r.0 == 0,
            !r.spec_valid(),
    {
        PageTableEntry(0)
    }

    /// The physical page number this entry points at.
    pub fn ppn(&self) -> (r: PhysPageNum)
        ensures
            r.0 == self.spec_ppn(),
            r.0 < PPN_BOUND,
    {
        PhysPageNum((self.0 / 1024) % PPN_BOUND)
    }

    /// The decoded flag field.
    pub fn flags(&self) -> (r: PTEFlags)
        ensures
            r == self.spec_flags(),
    {
        let f = PTEFlags::from_bits(self.0 % 1024);
        f.unwrap()
    }

    /// Whether the Valid flag is raised.
    pub fn is_valid(&self) -> (b: bool)
        ensures
            b == self.spec_valid(),
    {
        self.flags().v
    }

    /// Whether the Read flag is raised.
    pub fn readable(&self) -> (b: bool)
        ensures
            b == self.spec_flags().r,
    {
        self.flags().r
    }

    /// Whether the Write flag is raised.
    pub fn writable(&self) -> (b: bool)
        ensures
            b == self.spec_flags().w,
    {
        self.flags().w
    }

    /// Whether the eXecute flag is raised.
    pub fn executable(&self) -> (b: bool)
        ensures
            b == self.spec_flags().x,
    {
        self.flags().x
    }
}

/// The activation-token tag selecting the three-level paging scheme,
/// placed in the top four bits of the token.
pub const SATP_MODE_SV39: u64 = 0x8000_0000_0000_0000;

/// A three-level radix-tree page table: the root node's page number plus
/// ownership of every node frame this table allocated. A table built by
/// [`PageTable::from_satp`] owns no frames: it is a borrowed view used to
/// inspect another address space's translations.
pub struct PageTable {
    root_ppn: PhysPageNum,
    frames: Vec<FrameTracker>,
}

impl PageTable {
    /// The page number of the root node.
    pub closed spec fn root(self) -> u64 {
        self.root_ppn.0
    }

    /// The root-node entry for top index `i0`.
    pub open spec fn mid_entry(self, mem: PhysMem, i0: int) -> PageTableEntry {
        mem.table_at(self.root())[i0]
    }

    /// Whether the walk can descend from the root at top index `i0`.
    pub open spec fn has_mid(self, mem: PhysMem, i0: int) -> bool {
        self.mid_entry(mem, i0).spec_valid()
    }

    /// The middle node reached from the root at top index `i0`.
    pub open spec fn mid(self, mem: PhysMem, i0: int) -> u64 {
        self.mid_entry(mem, i0).spec_ppn()
    }

    /// The middle-node entry for indices `(i0, i1)`.
    pub open spec fn leaf_entry_ptr(self, mem: PhysMem, i0: int, i1: int) -> PageTableEntry {
        mem.table_at(self.mid(mem, i0))[i1]
    }

    /// Whether the walk can descend to a leaf node at indices `(i0, i1)`.
    pub open spec fn has_leaf_table(self, mem: PhysMem, i0: int, i1: int) -> bool {
        self.has_mid(mem, i0) && self.leaf_entry_ptr(mem, i0, i1).spec_valid()
    }

    /// The leaf node reached at indices `(i0, i1)`.
    pub open spec fn leaf(self, mem: PhysMem, i0: int, i1: int) -> u64 {
        self.leaf_entry_ptr(mem, i0, i1).spec_ppn()
    }

    /// Whether page `p` serves as a node of this table.
    pub open spec fn is_node(self, mem: PhysMem, p: u64) -> bool {
        ||| p == self.root()
        ||| exists|i0: int|
            0 <= i0 < 512 && self.has_mid(mem, i0) && #[trigger] self.mid(mem, i0) == p
        ||| exists|i0: int, i1: int|
            0 <= i0 < 512 && 0 <= i1 < 512 && self.has_leaf_table(mem, i0, i1)
                && #[trigger] self.leaf(mem, i0, i1) == p
    }

    /// The shape invariant of the radix tree within the arena: every node
    /// is a well-formed table page, and all nodes are pairwise distinct, so
    /// that writing through one slot can never alter another path.
    pub open spec fn wf_in(self, mem: PhysMem) -> bool {
        &&& mem.is_table(self.root())
        &&& forall|i0: int| #![trigger self.mid(mem, i0)]
            0 <= i0 < 512 && self.has_mid(mem, i0) ==> mem.is_table(self.mid(mem, i0))
                && self.mid(mem, i0) != self.root()
        &&& forall|i0: int, i1: int| #![trigger self.leaf(mem, i0, i1)]
            0 <= i0 < 512 && 0 <= i1 < 512 && self.has_leaf_table(mem, i0, i1) ==> mem.is_table(
                self.leaf(mem, i0, i1),
            ) && self.leaf(mem, i0, i1) != self.root()
        &&& forall|i0: int, i1: int, j0: int| #![trigger self.leaf(mem, i0, i1), self.mid(mem, j0)]
            0 <= i0 < 512 && 0 <= i1 < 512 && 0 <= j0 < 512 && self.has_leaf_table(mem, i0, i1)
                && self.has_mid(mem, j0) ==> self.leaf(mem, i0, i1) != self.mid(mem, j0)
        &&& forall|i0: int, j0: int| #![trigger self.mid(mem, i0), self.mid(mem, j0)]
            0 <= i0 < 512 && 0 <= j0 < 512 && i0 != j0 && self.has_mid(mem, i0) && self.has_mid(
                mem,
                j0,
            ) ==> self.mid(mem, i0) != self.mid(mem, j0)
        &&& forall|i0: int, i1: int, j0: int, j1: int|
            #![trigger self.leaf(mem, i0, i1), self.leaf(mem, j0, j1)]
            0 <= i0 < 512 && 0 <= i1 < 512 && 0 <= j0 < 512 && 0 <= j1 < 512 && !(i0 == j0 && i1
                == j1) && self.has_leaf_table(mem, i0, i1) && self.has_leaf_table(mem, j0, j1)
                ==> self.leaf(mem, i0, i1) != self.leaf(mem, j0, j1)
    }

    /// Every node page of this table is a currently-allocated frame, which
    /// makes freshly allocated frames distinct from all of them.
    pub open spec fn nodes_live(self, mem: PhysMem) -> bool {
        &&& mem.live(self.root())
        &&& forall|i0: int| #![trigger self.mid(mem, i0)]
            0 <= i0 < 512 && self.has_mid(mem, i0) ==> mem.live(self.mid(mem, i0))
        &&& forall|i0: int, i1: int| #![trigger self.leaf(mem, i0, i1)]
            0 <= i0 < 512 && 0 <= i1 < 512 && self.has_leaf_table(mem, i0, i1) ==> mem.live(
                self.leaf(mem, i0, i1),
            )
    }

    /// The walk's answer for `vpn`: the leaf entry when every intermediate
    /// entry on the path is valid, nothing otherwise. The leaf entry itself
    /// may be invalid.
    #[verifier::opaque]
    pub open spec fn spec_translate(self, mem: PhysMem, vpn: u64) -> Option<PageTableEntry> {
        let i0 = vpn_i0(vpn as int);
        let i1 = vpn_i1(vpn as int);
        let i2 = vpn_i2(vpn as int);
        if self.has_leaf_table(mem, i0, i1) {
            Some(mem.table_at(self.leaf(mem, i0, i1))[i2])
        } else {
            None
        }
    }

    /// The translation `vpn` currently resolves to: the leaf entry if the
    /// walk reaches one and it is valid.
    pub open spec fn spec_resolve(self, mem: PhysMem, vpn: u64) -> Option<PageTableEntry> {
        match self.spec_translate(mem, vpn) {
            Some(e) => if e.spec_valid() {
                Some(e)
            } else {
                None
            },
            None => None,
        }
    }

    /// Whether `vpn` currently resolves to a valid translation.
    pub open spec fn is_mapped(self, mem: PhysMem, vpn: u64) -> bool {
        self.spec_resolve(mem, vpn) is Some
    }

    /// How many node frames a walk to `vpn` would have to create.
    pub open spec fn spec_missing(self, mem: PhysMem, vpn: u64) -> int {
        let i0 = vpn_i0(vpn as int);
        let i1 = vpn_i1(vpn as int);
        (if self.has_mid(mem, i0) {
            0int
        } else {
            1int
        }) + (if self.has_leaf_table(mem, i0, i1) {
            0int
        } else {
            1int
        })
    }

    /// The hardware activation token selecting this table: the paging-mode
    /// tag over the root page number.
    pub open spec fn spec_satp(self) -> u64 {
        (SATP_MODE_SV39 + self.root()) as u64
    }

    /// A fresh table with one empty root node, allocated from the arena.
    pub fn new(mem: &mut PhysMem) -> (pt: PageTable)
        requires
            old(mem).wf(),
            old(mem).free_count() >= 1,
        ensures
            final(mem).wf(),
            same_extent(*old(mem), *final(mem)),
            pt.wf_in(*final(mem)),
            pt.nodes_live(*final(mem)),
            pt.root() < PPN_BOUND,
            forall|vpn: u64| pt.spec_translate(*final(mem), vpn) == None::<PageTableEntry>,
            final(mem).table_at(pt.root()) == Seq::new(512, |i: int| PageTableEntry(0)),
            pt.owned_nodes().len() == 1 && pt.owned_nodes()[0].0 == pt.root(),
            !old(mem).live(pt.root()),
            final(mem).live(pt.root()),
            frames_unchanged_except(*old(mem), *final(mem), pt.root()),
            forall|q: u64| old(mem).live(q) ==> final(mem).live(q),
            forall|q: u64| final(mem).live(q) ==> old(mem).live(q) || q == pt.root(),
            final(mem).free_count() == old(mem).free_count() - 1,
            final(mem).alloc_state().top() == old(mem).alloc_state().top(),
    {
        let f = match frame_alloc(mem) {
            Some(f) => f,
            None => {
                proof {
                    assert(false);
                }
                FrameTracker { ppn: PhysPageNum(0) }
            },
        };
        mem.set_table(f.ppn);
        let root_ppn = f.ppn;
        let mut frames: Vec<FrameTracker> = Vec::new();
        frames.push(f);
        let pt = PageTable { root_ppn, frames };
        proof {
            reveal(PageTable::spec_translate);
            assert forall|i0: int| 0 <= i0 < 512 implies !pt.has_mid(*mem, i0) by {
                assert(mem.table_at(pt.root())[i0] == PageTableEntry(0));
            }
            assert(mem.table_at(pt.root()) =~= Seq::new(512, |i: int| PageTableEntry(0)));
            assert(pt.owned_nodes().len() == 1 && pt.owned_nodes()[0].0 == pt.root());
        }
        pt
    }

    /// A borrowed, non-owning view of the table a raw activation token
    /// selects: the root page number is taken from the token's low bits and
    /// no node frames are owned, so this view must never be used to tear
    /// down a table it does not own.
    pub fn from_satp(satp: u64) -> (pt: PageTable)
        ensures
            pt.root() == satp % PPN_BOUND,
            pt.owned_nodes() == Seq::<PhysPageNum>::empty(),
    {
        proof {
            lemma_mod_mod(satp as int, PPN_BOUND as int, 4);
        }
        PageTable { root_ppn: PhysPageNum::from(satp % SATP_PPN_BOUND), frames: Vec::new() }
    }

    /// The node frames this table owns.
    pub closed spec fn frames(self) -> Seq<FrameTracker> {
        self.frames@
    }

    /// The page numbers of the node frames this table owns.
    pub open spec fn owned_nodes(self) -> Seq<PhysPageNum> {
        self.frames().map_values(|f: FrameTracker| f.ppn)
    }

    /// The hardware activation token selecting this table.
    pub fn satp(&self) -> (r: u64)
        requires
            self.root() < SATP_PPN_BOUND,
        ensures
            r == self.spec_satp(),
    {
        SATP_MODE_SV39 + self.root_ppn.0
    }

    /// The read-only walk: the leaf node and slot serving `vpn`, or nothing
    /// when an intermediate entry on the path is invalid.
    fn find_pte(&self, mem: &PhysMem, vpn: VirtPageNum) -> (r: Option<(PhysPageNum, usize)>)
        requires
            mem.wf(),
            self.wf_in(*mem),
        ensures
            match r {
                Some((leaf, i2)) => {
                    &&& self.has_leaf_table(*mem, vpn_i0(vpn.0 as int), vpn_i1(vpn.0 as int))
                    &&& leaf.0 == self.leaf(*mem, vpn_i0(vpn.0 as int), vpn_i1(vpn.0 as int))
                    &&& i2 == vpn_i2(vpn.0 as int)
                    &&& mem.is_table(leaf.0)
                    &&& self.spec_translate(*mem, vpn.0) == Some(mem.table_at(leaf.0)[i2 as int])
                },
                None => !self.has_leaf_table(*mem, vpn_i0(vpn.0 as int), vpn_i1(vpn.0 as int))
                    && self.spec_translate(*mem, vpn.0) == None::<PageTableEntry>,
            },
    {
        proof {
            reveal(PageTable::spec_translate);
        }
        let idx = vpn.indexes();
        let pte0 = mem.read_pte(self.root_ppn, idx[0]);
        if !pte0.is_valid() {
            return None;
        }
        let midp = pte0.ppn();
        let pte1 = mem.read_pte(midp, idx[1]);
        if !pte1.is_valid() {
            return None;
        }
        Some((pte1.ppn(), idx[2]))
    }

    /// The leaf entry serving `vpn`, or nothing when an intermediate entry
    /// on the path is invalid; never allocates.
    pub fn translate(&self, mem: &PhysMem, vpn: VirtPageNum) -> (r: Option<PageTableEntry>)
        requires
            mem.wf(),
            self.wf_in(*mem),
        ensures
            r == self.spec_translate(*mem, vpn.0),
    {
        match self.find_pte(mem, vpn) {
            Some((leaf, i2)) => Some(mem.read_pte(leaf, i2)),
            None => None,
        }
    }
}

/// Frames that read the same in two arenas yield the same walk: if every
/// node page of `pt` in `m0` has unchanged contents in `m1`, the tree has
/// the same shape, the same nodes, and the same translations in both.
pub proof fn lemma_walk_unchanged(pt: PageTable, m0: PhysMem, m1: PhysMem)
    requires
        pt.wf_in(m0),
        m1.fview(pt.root()) == m0.fview(pt.root()),
        forall|i0: int|
            0 <= i0 < 512 && pt.has_mid(m0, i0) ==> m1.fview(#[trigger] pt.mid(m0, i0))
                == m0.fview(pt.mid(m0, i0)),
        forall|i0: int, i1: int|
            0 <= i0 < 512 && 0 <= i1 < 512 && pt.has_leaf_table(m0, i0, i1) ==> m1.fview(
                #[trigger] pt.leaf(m0, i0, i1),
            ) == m0.fview(pt.leaf(m0, i0, i1)),
        m1.in_range(pt.root()) == m0.in_range(pt.root()),
        forall|q: u64| m0.in_range(q) ==> m1.in_range(q),
    ensures
        forall|i0: int|
            0 <= i0 < 512 ==> #[trigger] pt.has_mid(m1, i0) == pt.has_mid(m0, i0),
        forall|i0: int|
            0 <= i0 < 512 && pt.has_mid(m0, i0) ==> #[trigger] pt.mid(m1, i0) == pt.mid(m0, i0),
        forall|i0: int, i1: int|
            0 <= i0 < 512 && 0 <= i1 < 512 ==> #[trigger] pt.has_leaf_table(m1, i0, i1)
                == pt.has_leaf_table(m0, i0, i1),
        forall|i0: int, i1: int|
            0 <= i0 < 512 && 0 <= i1 < 512 && pt.has_leaf_table(m0, i0, i1) ==> #[trigger] pt.leaf(
                m1,
                i0,
                i1,
            ) == pt.leaf(m0, i0, i1),
        forall|vpn: u64|
            vpn < VPN_BOUND ==> #[trigger] pt.spec_translate(m1, vpn) == pt.spec_translate(
                m0,
                vpn,
            ),
        pt.wf_in(m1),
{
    reveal(PageTable::spec_translate);
    assert(m1.table_at(pt.root()) == m0.table_at(pt.root()));
    assert forall|i0: int| 0 <= i0 < 512 implies #[trigger] pt.has_mid(m1, i0) == pt.has_mid(
        m0,
        i0,
    ) && (pt.has_mid(m0, i0) ==> pt.mid(m1, i0) == pt.mid(m0, i0) && m1.is_table(
        pt.mid(m1, i0),
    )) by {
        assert(pt.mid_entry(m1, i0) == pt.mid_entry(m0, i0));
        if pt.has_mid(m0, i0) {
            assert(m1.fview(pt.mid(m0, i0)) == m0.fview(pt.mid(m0, i0)));
            assert(m0.is_table(pt.mid(m0, i0)));
            assert(m0.in_range(pt.mid(m0, i0)));
        }
    }
    assert forall|i0: int, i1: int|
        0 <= i0 < 512 && 0 <= i1 < 512 implies #[trigger] pt.has_leaf_table(m1, i0, i1)
        == pt.has_leaf_table(m0, i0, i1) && (pt.has_leaf_table(m0, i0, i1) ==> pt.leaf(m1, i0, i1)
        == pt.leaf(m0, i0, i1) && m1.is_table(pt.leaf(m1, i0, i1))) by {
        if pt.has_mid(m0, i0) {
            assert(m1.fview(pt.mid(m0, i0)) == m0.fview(pt.mid(m0, i0)));
            assert(pt.leaf_entry_ptr(m1, i0, i1) == pt.leaf_entry_ptr(m0, i0, i1));
        }
    }
    assert forall|vpn: u64| vpn < VPN_BOUND implies #[trigger] pt.spec_translate(m1, vpn)
        == pt.spec_translate(m0, vpn) by {
        let i0 = vpn_i0(vpn as int);
        let i1 = vpn_i1(vpn as int);
        if pt.has_leaf_table(m0, i0, i1) {
            assert(m1.fview(pt.leaf(m0, i0, i1)) == m0.fview(pt.leaf(m0, i0, i1)));
        }
    }
}

/// The flag set with the Valid bit forced on.
pub open spec fn flags_with_valid(f: PTEFlags) -> PTEFlags {
    PTEFlags { v: true, ..f }
}

/// A virtual page number below the bound is exactly its three radix
/// indices put back together.
pub proof fn lemma_vpn_indices(w: u64)
    requires
        w < VPN_BOUND,
    ensures
        0 <= vpn_i0(w as int) < 512,
        0 <= vpn_i1(w as int) < 512,
        0 <= vpn_i2(w as int) < 512,
        w == vpn_i0(w as int) * 0x40000 + vpn_i1(w as int) * 512 + vpn_i2(w as int),
{
    let wi = w as int;
    vstd::arithmetic::div_mod::lemma_fundamental_div_mod(wi, 512);
    vstd::arithmetic::div_mod::lemma_fundamental_div_mod(wi / 512, 512);
    lemma_div_denominator(wi, 512, 512);
    assert(wi / 0x40000 < 512) by (nonlinear_arith)
        requires
            0 <= wi < 0x800_0000,
    ;
    vstd::arithmetic::div_mod::lemma_small_mod((wi / 0x40000) as nat, 512);
    vstd::arithmetic::div_mod::lemma_mod_bound(wi, 512);
    vstd::arithmetic::div_mod::lemma_mod_bound(wi / 512, 512);
}

/// Distinct virtual page numbers below the bound differ in at least one
/// radix index.
pub proof fn lemma_vpn_indices_injective(w1: u64, w2: u64)
    requires
        w1 < VPN_BOUND,
        w2 < VPN_BOUND,
        vpn_i0(w1 as int) == vpn_i0(w2 as int),
        vpn_i1(w1 as int) == vpn_i1(w2 as int),
        vpn_i2(w1 as int) == vpn_i2(w2 as int),
    ensures
        w1 == w2,
{
    lemma_vpn_indices(w1);
    lemma_vpn_indices(w2);
}

/// Putting three in-bounds radix indices together and splitting the result
/// gives the indices back.
pub proof fn lemma_vpn_indices_decompose(i0v: int, i1v: int, i2v: int)
    requires
        0 <= i0v < 512,
        0 <= i1v < 512,
        0 <= i2v < 512,
    ensures
        vpn_i0(i0v * 0x40000 + i1v * 512 + i2v) == i0v,
        vpn_i1(i0v * 0x40000 + i1v * 512 + i2v) == i1v,
        vpn_i2(i0v * 0x40000 + i1v * 512 + i2v) == i2v,
{
    let w = i0v * 0x40000 + i1v * 512 + i2v;
    assert(w == (i0v * 512 + i1v) * 512 + i2v) by (nonlinear_arith)
        requires
            w == i0v * 0x40000 + i1v * 512 + i2v,
    ;
    lemma_fundamental_div_mod_converse(w, 512, i0v * 512 + i1v, i2v);
    lemma_fundamental_div_mod_converse(i0v * 512 + i1v, 512, i0v, i1v);
    lemma_div_denominator(w, 512, 512);
    vstd::arithmetic::div_mod::lemma_small_mod(i0v as nat, 512);
    vstd::arithmetic::div_mod::lemma_small_mod(i1v as nat, 512);
    vstd::arithmetic::div_mod::lemma_small_mod(i2v as nat, 512);
}

/// Adding an empty middle node below the root at top index `i0v` keeps the
/// tree well formed, adds no leaf node, and changes no translation.
#[verifier::rlimit(100)]
proof fn lemma_create_mid(
    pt: PageTable,
    m0: PhysMem,
    m2: PhysMem,
    f: u64,
    i0v: int,
    pte_new: PageTableEntry,
)
    requires
        m0.wf(),
        m2.wf(),
        same_extent(m0, m2),
        pt.wf_in(m0),
        pt.nodes_live(m0),
        0 <= i0v < 512,
        !pt.has_mid(m0, i0v),
        m0.in_range(f),
        !m0.live(f),
        m2.live(f),
        pte_new.spec_valid(),
        pte_new.spec_ppn() == f,
        m2.is_table(f),
        m2.table_at(f) == Seq::new(512, |k: int| PageTableEntry(0)),
        m2.is_table(pt.root()),
        m2.table_at(pt.root()) == m0.table_at(pt.root()).update(i0v, pte_new),
        forall|q: u64|
            m0.in_range(q) && q != pt.root() && q != f ==> #[trigger] m2.fview(q) == m0.fview(q),
        forall|q: u64| m0.live(q) ==> #[trigger] m2.live(q),
        forall|q: u64| #[trigger] m2.live(q) ==> m0.live(q) || q == f,
    ensures
        pt.wf_in(m2),
        pt.nodes_live(m2),
        pt.has_mid(m2, i0v),
        pt.mid(m2, i0v) == f,
        pt.mid_entry(m2, i0v) == pte_new,
        forall|j0: int|
            0 <= j0 < 512 && j0 != i0v ==> #[trigger] pt.has_mid(m2, j0) == pt.has_mid(m0, j0),
        forall|j0: int|
            0 <= j0 < 512 && j0 != i0v && pt.has_mid(m0, j0) ==> #[trigger] pt.mid(m2, j0)
                == pt.mid(m0, j0),
        forall|j0: int, j1: int|
            0 <= j0 < 512 && 0 <= j1 < 512 ==> (#[trigger] pt.has_leaf_table(m2, j0, j1) == (
            pt.has_leaf_table(m0, j0, j1) && j0 != i0v)),
        forall|j0: int, j1: int|
            0 <= j0 < 512 && 0 <= j1 < 512 && pt.has_leaf_table(m0, j0, j1) ==> #[trigger] pt.leaf(
                m2,
                j0,
                j1,
            ) == pt.leaf(m0, j0, j1) && m2.table_at(pt.leaf(m2, j0, j1)) == m0.table_at(
                pt.leaf(m0, j0, j1),
            ),
        forall|w: u64|
            w < VPN_BOUND ==> #[trigger] pt.spec_resolve(m2, w) == pt.spec_resolve(m0, w),
{
    reveal(PageTable::spec_translate);
    let root = pt.root();
    assert(f != root);
    assert forall|j0: int| 0 <= j0 < 512 && j0 != i0v implies #[trigger] pt.mid_entry(m2, j0)
        == pt.mid_entry(m0, j0) by {
        assert(m2.table_at(root)[j0] == m0.table_at(root)[j0]);
    }
    assert(pt.mid_entry(m2, i0v) == pte_new);
    assert forall|j0: int| 0 <= j0 < 512 && pt.has_mid(m0, j0) implies m2.fview(
        #[trigger] pt.mid(m0, j0),
    ) == m0.fview(pt.mid(m0, j0)) && pt.mid(m0, j0) != f by {
        assert(m0.live(pt.mid(m0, j0)));
        assert(pt.mid(m0, j0) != root);
    }
    assert forall|j0: int, j1: int|
        0 <= j0 < 512 && 0 <= j1 < 512 && pt.has_leaf_table(m0, j0, j1) implies m2.fview(
        #[trigger] pt.leaf(m0, j0, j1),
    ) == m0.fview(pt.leaf(m0, j0, j1)) && pt.leaf(m0, j0, j1) != f by {
        assert(m0.live(pt.leaf(m0, j0, j1)));
        assert(pt.leaf(m0, j0, j1) != root);
    }
    assert forall|j1: int| 0 <= j1 < 512 implies !(#[trigger] pt.leaf_entry_ptr(
        m2,
        i0v,
        j1,
    )).spec_valid() by {
        assert(pt.leaf_entry_ptr(m2, i0v, j1) == PageTableEntry(0));
    }
    assert forall|j0: int, j1: int| 0 <= j0 < 512 && 0 <= j1 < 512 implies (
    #[trigger] pt.has_leaf_table(m2, j0, j1) == (pt.has_leaf_table(m0, j0, j1) && j0
        != i0v)) by {
        if j0 == i0v {
        } else if pt.has_mid(m0, j0) {
            assert(pt.leaf_entry_ptr(m2, j0, j1) == pt.leaf_entry_ptr(m0, j0, j1));
        }
    }
    assert forall|j0: int, j1: int|
        0 <= j0 < 512 && 0 <= j1 < 512 && pt.has_leaf_table(m0, j0, j1) implies #[trigger] pt.leaf(
        m2,
        j0,
        j1,
    ) == pt.leaf(m0, j0, j1) && m2.table_at(pt.leaf(m2, j0, j1)) == m0.table_at(
        pt.leaf(m0, j0, j1),
    ) by {
        assert(pt.leaf_entry_ptr(m2, j0, j1) == pt.leaf_entry_ptr(m0, j0, j1));
        assert(m2.fview(pt.leaf(m0, j0, j1)) == m0.fview(pt.leaf(m0, j0, j1)));
    }
    assert(pt.wf_in(m2)) by {
        assert forall|j0: int|
            0 <= j0 < 512 && pt.has_mid(m2, j0) implies m2.is_table(#[trigger] pt.mid(m2, j0))
            && pt.mid(m2, j0) != root by {
            if j0 != i0v {
                assert(pt.mid(m2, j0) == pt.mid(m0, j0));
                assert(m0.is_table(pt.mid(m0, j0)));
                assert(m2.fview(pt.mid(m0, j0)) == m0.fview(pt.mid(m0, j0)));
            }
        }
        assert forall|j0: int, j1: int|
            0 <= j0 < 512 && 0 <= j1 < 512 && pt.has_leaf_table(m2, j0, j1) implies m2.is_table(
            #[trigger] pt.leaf(m2, j0, j1),
        ) && pt.leaf(m2, j0, j1) != root by {
            assert(pt.has_leaf_table(m0, j0, j1));
            assert(m0.is_table(pt.leaf(m0, j0, j1)));
            assert(m2.fview(pt.leaf(m0, j0, j1)) == m0.fview(pt.leaf(m0, j0, j1)));
        }
        assert forall|j0: int, j1: int, k0: int|
            0 <= j0 < 512 && 0 <= j1 < 512 && 0 <= k0 < 512 && pt.has_leaf_table(m2, j0, j1)
                && pt.has_mid(m2, k0) implies #[trigger] pt.leaf(m2, j0, j1) != #[trigger] pt.mid(
            m2,
            k0,
        ) by {
            assert(pt.leaf(m2, j0, j1) == pt.leaf(m0, j0, j1));
            assert(m0.live(pt.leaf(m0, j0, j1)));
            if k0 == i0v {
                assert(pt.mid(m2, k0) == f);
            } else {
                assert(pt.mid(m2, k0) == pt.mid(m0, k0));
            }
        }
        assert forall|j0: int, k0: int|
            0 <= j0 < 512 && 0 <= k0 < 512 && j0 != k0 && pt.has_mid(m2, j0) && pt.has_mid(
                m2,
                k0,
            ) implies #[trigger] pt.mid(m2, j0) != #[trigger] pt.mid(m2, k0) by {
            if j0 == i0v {
                assert(pt.mid(m2, k0) == pt.mid(m0, k0));
                assert(m0.live(pt.mid(m0, k0)));
            } else if k0 == i0v {
                assert(pt.mid(m2, j0) == pt.mid(m0, j0));
                assert(m0.live(pt.mid(m0, j0)));
            } else {
                assert(pt.mid(m2, j0) == pt.mid(m0, j0));
                assert(pt.mid(m2, k0) == pt.mid(m0, k0));
            }
        }
        assert forall|j0: int, j1: int, k0: int, k1: int|
            0 <= j0 < 512 && 0 <= j1 < 512 && 0 <= k0 < 512 && 0 <= k1 < 512 && !(j0 == k0 && j1
                == k1) && pt.has_leaf_table(m2, j0, j1) && pt.has_leaf_table(m2, k0, k1) implies
            #[trigger] pt.leaf(m2, j0, j1) != #[trigger] pt.leaf(m2, k0, k1) by {
            assert(pt.leaf(m2, j0, j1) == pt.leaf(m0, j0, j1));
            assert(pt.leaf(m2, k0, k1) == pt.leaf(m0, k0, k1));
        }
    }
    assert(pt.nodes_live(m2)) by {
        assert forall|j0: int| 0 <= j0 < 512 && pt.has_mid(m2, j0) implies m2.live(
            #[trigger] pt.mid(m2, j0),
        ) by {
            if j0 != i0v {
                assert(pt.mid(m2, j0) == pt.mid(m0, j0));
                assert(m0.live(pt.mid(m0, j0)));
            }
        }
        assert forall|j0: int, j1: int|
            0 <= j0 < 512 && 0 <= j1 < 512 && pt.has_leaf_table(m2, j0, j1) implies m2.live(
            #[trigger] pt.leaf(m2, j0, j1),
        ) by {
            assert(pt.leaf(m2, j0, j1) == pt.leaf(m0, j0, j1));
            assert(m0.live(pt.leaf(m0, j0, j1)));
        }
    }
    assert forall|w: u64| w < VPN_BOUND implies #[trigger] pt.spec_resolve(m2, w)
        == pt.spec_resolve(m0, w) by {
        lemma_vpn_indices(w);
        let i0 = vpn_i0(w as int);
        let i1 = vpn_i1(w as int);
        if pt.has_leaf_table(m0, i0, i1) {
            assert(pt.leaf(m2, i0, i1) == pt.leaf(m0, i0, i1));
            assert(m2.table_at(pt.leaf(m2, i0, i1)) == m0.table_at(pt.leaf(m0, i0, i1)));
        }
    }
}

/// Adding an empty leaf node below middle node `i0v` at index `i1v` keeps
/// the tree well formed and changes no translation.
#[verifier::rlimit(100)]
proof fn lemma_create_leaf(
    pt: PageTable,
    m0: PhysMem,
    m2: PhysMem,
    f: u64,
    i0v: int,
    i1v: int,
    pte_new: PageTableEntry,
)
    requires
        m0.wf(),
        m2.wf(),
        same_extent(m0, m2),
        pt.wf_in(m0),
        pt.nodes_live(m0),
        0 <= i0v < 512,
        0 <= i1v < 512,
        pt.has_mid(m0, i0v),
        !pt.has_leaf_table(m0, i0v, i1v),
        m0.in_range(f),
        !m0.live(f),
        m2.live(f),
        pte_new.spec_valid(),
        pte_new.spec_ppn() == f,
        m2.is_table(f),
        m2.table_at(f) == Seq::new(512, |k: int| PageTableEntry(0)),
        m2.is_table(pt.mid(m0, i0v)),
        m2.table_at(pt.mid(m0, i0v)) == m0.table_at(pt.mid(m0, i0v)).update(i1v, pte_new),
        forall|q: u64|
            m0.in_range(q) && q != pt.mid(m0, i0v) && q != f ==> #[trigger] m2.fview(q)
                == m0.fview(q),
        forall|q: u64| m0.live(q) ==> #[trigger] m2.live(q),
        forall|q: u64| #[trigger] m2.live(q) ==> m0.live(q) || q == f,
    ensures
        pt.wf_in(m2),
        pt.nodes_live(m2),
        forall|j0: int| 0 <= j0 < 512 ==> #[trigger] pt.has_mid(m2, j0) == pt.has_mid(m0, j0),
        forall|j0: int|
            0 <= j0 < 512 && pt.has_mid(m0, j0) ==> #[trigger] pt.mid(m2, j0) == pt.mid(m0, j0),
        pt.has_leaf_table(m2, i0v, i1v),
        pt.leaf(m2, i0v, i1v) == f,
        pt.leaf_entry_ptr(m2, i0v, i1v) == pte_new,
        forall|j0: int| 0 <= j0 < 512 ==> #[trigger] pt.mid_entry(m2, j0) == pt.mid_entry(m0, j0),
        forall|j0: int, j1: int|
            0 <= j0 < 512 && 0 <= j1 < 512 && !(j0 == i0v && j1 == i1v) ==> (
            #[trigger] pt.has_leaf_table(m2, j0, j1) == pt.has_leaf_table(m0, j0, j1)),
        forall|j0: int, j1: int|
            0 <= j0 < 512 && 0 <= j1 < 512 && pt.has_leaf_table(m0, j0, j1) ==> #[trigger] pt.leaf(
                m2,
                j0,
                j1,
            ) == pt.leaf(m0, j0, j1) && m2.table_at(pt.leaf(m2, j0, j1)) == m0.table_at(
                pt.leaf(m0, j0, j1),
            ),
        forall|w: u64|
            w < VPN_BOUND ==> #[trigger] pt.spec_resolve(m2, w) == pt.spec_resolve(m0, w),
{
    reveal(PageTable::spec_translate);
    let root = pt.root();
    let midp = pt.mid(m0, i0v);
    assert(m0.live(root) && m0.live(midp));
    assert(f != root && f != midp);
    assert(midp != root);
    assert(m2.fview(root) == m0.fview(root));
    assert forall|j0: int| 0 <= j0 < 512 implies #[trigger] pt.mid_entry(m2, j0) == pt.mid_entry(
        m0,
        j0,
    ) by {
        assert(m2.table_at(root) == m0.table_at(root));
    }
    assert forall|j0: int| 0 <= j0 < 512 && pt.has_mid(m0, j0) && j0 != i0v implies m2.fview(
        #[trigger] pt.mid(m0, j0),
    ) == m0.fview(pt.mid(m0, j0)) && pt.mid(m0, j0) != f by {
        assert(m0.live(pt.mid(m0, j0)));
        assert(pt.mid(m0, j0) != midp);
    }
    assert forall|j0: int, j1: int|
        0 <= j0 < 512 && 0 <= j1 < 512 && pt.has_leaf_table(m0, j0, j1) implies m2.fview(
        #[trigger] pt.leaf(m0, j0, j1),
    ) == m0.fview(pt.leaf(m0, j0, j1)) && pt.leaf(m0, j0, j1) != f by {
        assert(m0.live(pt.leaf(m0, j0, j1)));
        assert(pt.leaf(m0, j0, j1) != midp);
    }
    assert(pt.leaf_entry_ptr(m2, i0v, i1v) == pte_new);
    assert forall|j0: int, j1: int|
        0 <= j0 < 512 && 0 <= j1 < 512 && !(j0 == i0v && j1 == i1v) implies (
    #[trigger] pt.has_leaf_table(m2, j0, j1) == pt.has_leaf_table(m0, j0, j1)) && (
    pt.has_leaf_table(m0, j0, j1) ==> pt.leaf(m2, j0, j1) == pt.leaf(m0, j0, j1)) by {
        if pt.has_mid(m0, j0) {
            if j0 == i0v {
                assert(pt.leaf_entry_ptr(m2, j0, j1) == m0.table_at(midp).update(
                    i1v,
                    pte_new,
                )[j1]);
                assert(pt.leaf_entry_ptr(m2, j0, j1) == pt.leaf_entry_ptr(m0, j0, j1));
            } else {
                assert(m2.fview(pt.mid(m0, j0)) == m0.fview(pt.mid(m0, j0)));
                assert(pt.leaf_entry_ptr(m2, j0, j1) == pt.leaf_entry_ptr(m0, j0, j1));
            }
        }
    }
    assert forall|j0: int, j1: int|
        0 <= j0 < 512 && 0 <= j1 < 512 && pt.has_leaf_table(m0, j0, j1) implies #[trigger] pt.leaf(
        m2,
        j0,
        j1,
    ) == pt.leaf(m0, j0, j1) && m2.table_at(pt.leaf(m2, j0, j1)) == m0.table_at(
        pt.leaf(m0, j0, j1),
    ) by {
        assert(m2.fview(pt.leaf(m0, j0, j1)) == m0.fview(pt.leaf(m0, j0, j1)));
    }
    assert(pt.wf_in(m2)) by {
        assert forall|j0: int|
            0 <= j0 < 512 && pt.has_mid(m2, j0) implies m2.is_table(#[trigger] pt.mid(m2, j0))
            && pt.mid(m2, j0) != root by {
            assert(pt.has_mid(m0, j0));
            if j0 == i0v {
            } else {
                assert(m2.fview(pt.mid(m0, j0)) == m0.fview(pt.mid(m0, j0)));
            }
        }
        assert forall|j0: int, j1: int|
            0 <= j0 < 512 && 0 <= j1 < 512 && pt.has_leaf_table(m2, j0, j1) implies m2.is_table(
            #[trigger] pt.leaf(m2, j0, j1),
        ) && pt.leaf(m2, j0, j1) != root by {
            if j0 == i0v && j1 == i1v {
                assert(pt.leaf(m2, j0, j1) == f);
                assert(!m0.live(f) && m0.live(root));
            } else {
                assert(pt.has_leaf_table(m0, j0, j1));
                assert(m2.fview(pt.leaf(m0, j0, j1)) == m0.fview(pt.leaf(m0, j0, j1)));
            }
        }
        assert forall|j0: int, j1: int, k0: int|
            0 <= j0 < 512 && 0 <= j1 < 512 && 0 <= k0 < 512 && pt.has_leaf_table(m2, j0, j1)
                && pt.has_mid(m2, k0) implies #[trigger] pt.leaf(m2, j0, j1) != #[trigger] pt.mid(
            m2,
            k0,
        ) by {
            assert(pt.mid(m2, k0) == pt.mid(m0, k0));
            assert(m0.live(pt.mid(m0, k0)));
            if j0 == i0v && j1 == i1v {
                assert(pt.leaf(m2, j0, j1) == f);
            } else {
                assert(pt.leaf(m2, j0, j1) == pt.leaf(m0, j0, j1));
            }
        }
        assert forall|j0: int, k0: int|
            0 <= j0 < 512 && 0 <= k0 < 512 && j0 != k0 && pt.has_mid(m2, j0) && pt.has_mid(
                m2,
                k0,
            ) implies #[trigger] pt.mid(m2, j0) != #[trigger] pt.mid(m2, k0) by {
            assert(pt.mid(m2, j0) == pt.mid(m0, j0) && pt.mid(m2, k0) == pt.mid(m0, k0));
        }
        assert forall|j0: int, j1: int, k0: int, k1: int|
            0 <= j0 < 512 && 0 <= j1 < 512 && 0 <= k0 < 512 && 0 <= k1 < 512 && !(j0 == k0 && j1
                == k1) && pt.has_leaf_table(m2, j0, j1) && pt.has_leaf_table(m2, k0, k1) implies
            #[trigger] pt.leaf(m2, j0, j1) != #[trigger] pt.leaf(m2, k0, k1) by {
            if j0 == i0v && j1 == i1v {
                assert(pt.leaf(m2, j0, j1) == f);
                assert(pt.leaf(m2, k0, k1) == pt.leaf(m0, k0, k1));
                assert(m0.live(pt.leaf(m0, k0, k1)));
            } else if k0 == i0v && k1 == i1v {
                assert(pt.leaf(m2, k0, k1) == f);
                assert(pt.leaf(m2, j0, j1) == pt.leaf(m0, j0, j1));
                assert(m0.live(pt.leaf(m0, j0, j1)));
            } else {
                assert(pt.leaf(m2, j0, j1) == pt.leaf(m0, j0, j1));
                assert(pt.leaf(m2, k0, k1) == pt.leaf(m0, k0, k1));
            }
        }
    }
    assert(pt.nodes_live(m2)) by {
        assert forall|j0: int| 0 <= j0 < 512 && pt.has_mid(m2, j0) implies m2.live(
            #[trigger] pt.mid(m2, j0),
        ) by {
            assert(pt.mid(m2, j0) == pt.mid(m0, j0));
            assert(m0.live(pt.mid(m0, j0)));
        }
        assert forall|j0: int, j1: int|
            0 <= j0 < 512 && 0 <= j1 < 512 && pt.has_leaf_table(m2, j0, j1) implies m2.live(
            #[trigger] pt.leaf(m2, j0, j1),
        ) by {
            if j0 == i0v && j1 == i1v {
            } else {
                assert(pt.leaf(m2, j0, j1) == pt.leaf(m0, j0, j1));
                assert(m0.live(pt.leaf(m0, j0, j1)));
            }
        }
    }
    assert forall|w: u64| w < VPN_BOUND implies #[trigger] pt.spec_resolve(m2, w)
        == pt.spec_resolve(m0, w) by {
        lemma_vpn_indices(w);
        let i0 = vpn_i0(w as int);
        let i1 = vpn_i1(w as int);
        let i2 = vpn_i2(w as int);
        if i0 == i0v && i1 == i1v {
            assert(!pt.has_leaf_table(m0, i0, i1));
            assert(pt.has_leaf_table(m2, i0, i1) && pt.leaf(m2, i0, i1) == f);
            assert(m2.table_at(f)[i2] == PageTableEntry(0));
            assert(!m2.table_at(f)[i2].spec_valid());
        } else if pt.has_leaf_table(m0, i0, i1) {
            assert(pt.leaf(m2, i0, i1) == pt.leaf(m0, i0, i1));
            assert(m2.table_at(pt.leaf(m2, i0, i1)) == m0.table_at(pt.leaf(m0, i0, i1)));
        }
    }
}

/// Overwriting the leaf entry at `(i0v, i1v, i2v)` changes exactly the one
/// translation it serves and nothing of the tree's shape.
#[verifier::rlimit(100)]
#[verifier::spinoff_prover]
proof fn lemma_write_leaf(
    pt: PageTable,
    m0: PhysMem,
    m1: PhysMem,
    i0v: int,
    i1v: int,
    i2v: int,
    pte: PageTableEntry,
)
    requires
        m0.wf(),
        m1.wf(),
        same_extent(m0, m1),
        pt.wf_in(m0),
        0 <= i0v < 512,
        0 <= i1v < 512,
        0 <= i2v < 512,
        pt.has_leaf_table(m0, i0v, i1v),
        m1.is_table(pt.leaf(m0, i0v, i1v)),
        m1.table_at(pt.leaf(m0, i0v, i1v)) == m0.table_at(pt.leaf(m0, i0v, i1v)).update(i2v, pte),
        forall|q: u64|
            m0.in_range(q) && q != pt.leaf(m0, i0v, i1v) ==> #[trigger] m1.fview(q) == m0.fview(q),
        forall|q: u64| #[trigger] m1.live(q) == m0.live(q),
    ensures
        pt.wf_in(m1),
        pt.nodes_live(m0) ==> pt.nodes_live(m1),
        forall|j0: int| 0 <= j0 < 512 ==> #[trigger] pt.has_mid(m1, j0) == pt.has_mid(m0, j0),
        forall|j0: int|
            0 <= j0 < 512 && pt.has_mid(m0, j0) ==> #[trigger] pt.mid(m1, j0) == pt.mid(m0, j0),
        forall|j0: int, j1: int|
            0 <= j0 < 512 && 0 <= j1 < 512 ==> #[trigger] pt.has_leaf_table(m1, j0, j1)
                == pt.has_leaf_table(m0, j0, j1),
        forall|j0: int, j1: int|
            0 <= j0 < 512 && 0 <= j1 < 512 && pt.has_leaf_table(m0, j0, j1) ==> #[trigger] pt.leaf(
                m1,
                j0,
                j1,
            ) == pt.leaf(m0, j0, j1),
        forall|j0: int| 0 <= j0 < 512 ==> #[trigger] pt.mid_entry(m1, j0) == pt.mid_entry(m0, j0),
        forall|j0: int, j1: int|
            0 <= j0 < 512 && 0 <= j1 < 512 && pt.has_mid(m0, j0) ==> #[trigger] pt.leaf_entry_ptr(
                m1,
                j0,
                j1,
            ) == pt.leaf_entry_ptr(m0, j0, j1),
        pt.spec_translate(m1, (i0v * 0x40000 + i1v * 512 + i2v) as u64) == Some(pte),
        forall|w: u64|
            w < VPN_BOUND && w != i0v * 0x40000 + i1v * 512 + i2v ==> #[trigger] pt.spec_translate(
                m1,
                w,
            ) == pt.spec_translate(m0, w),
{
    let root = pt.root();
    let leafp = pt.leaf(m0, i0v, i1v);
    assert(leafp != root);
    assert(m1.fview(root) == m0.fview(root));
    assert forall|j0: int| 0 <= j0 < 512 implies #[trigger] pt.mid_entry(m1, j0) == pt.mid_entry(
        m0,
        j0,
    ) by {
        assert(m1.table_at(root) == m0.table_at(root));
    }
    assert forall|j0: int| 0 <= j0 < 512 && pt.has_mid(m0, j0) implies m1.fview(
        #[trigger] pt.mid(m0, j0),
    ) == m0.fview(pt.mid(m0, j0)) by {
        assert(pt.mid(m0, j0) != leafp);
    }
    assert forall|j0: int, j1: int| 0 <= j0 < 512 && 0 <= j1 < 512 implies
    #[trigger] pt.has_leaf_table(m1, j0, j1) == pt.has_leaf_table(m0, j0, j1) && (
    pt.has_leaf_table(m0, j0, j1) ==> pt.leaf(m1, j0, j1) == pt.leaf(m0, j0, j1)) by {
        if pt.has_mid(m0, j0) {
            assert(m1.fview(pt.mid(m0, j0)) == m0.fview(pt.mid(m0, j0)));
            assert(pt.leaf_entry_ptr(m1, j0, j1) == pt.leaf_entry_ptr(m0, j0, j1));
        }
    }
    assert forall|j0: int, j1: int|
        0 <= j0 < 512 && 0 <= j1 < 512 && pt.has_mid(m0, j0) implies #[trigger] pt.leaf_entry_ptr(
        m1,
        j0,
        j1,
    ) == pt.leaf_entry_ptr(m0, j0, j1) by {
        assert(m1.fview(pt.mid(m0, j0)) == m0.fview(pt.mid(m0, j0)));
    }
    assert forall|j0: int, j1: int|
        0 <= j0 < 512 && 0 <= j1 < 512 && pt.has_leaf_table(m0, j0, j1) && !(j0 == i0v && j1
        == i1v) implies m1.fview(#[trigger] pt.leaf(m0, j0, j1)) == m0.fview(
        pt.leaf(m0, j0, j1),
    ) by {
        assert(pt.leaf(m0, j0, j1) != leafp);
    }
    lemma_write_leaf_wf(pt, m0, m1, i0v, i1v, i2v, pte);
    lemma_write_leaf_translations(pt, m0, m1, i0v, i1v, i2v, pte);
}

/// The shape part of overwriting a leaf entry: the tree stays well formed
/// and its nodes stay live.
#[verifier::rlimit(100)]
#[verifier::spinoff_prover]
proof fn lemma_write_leaf_wf(
    pt: PageTable,
    m0: PhysMem,
    m1: PhysMem,
    i0v: int,
    i1v: int,
    i2v: int,
    pte: PageTableEntry,
)
    requires
        pt.wf_in(m0),
        0 <= i0v < 512,
        0 <= i1v < 512,
        pt.has_leaf_table(m0, i0v, i1v),
        m1.is_table(pt.leaf(m0, i0v, i1v)),
        forall|j0: int| 0 <= j0 < 512 ==> #[trigger] pt.has_mid(m1, j0) == pt.has_mid(m0, j0),
        forall|j0: int|
            0 <= j0 < 512 && pt.has_mid(m0, j0) ==> #[trigger] pt.mid(m1, j0) == pt.mid(m0, j0),
        forall|j0: int, j1: int|
            0 <= j0 < 512 && 0 <= j1 < 512 ==> #[trigger] pt.has_leaf_table(m1, j0, j1)
                == pt.has_leaf_table(m0, j0, j1),
        forall|j0: int, j1: int|
            0 <= j0 < 512 && 0 <= j1 < 512 && pt.has_leaf_table(m0, j0, j1) ==> #[trigger] pt.leaf(
                m1,
                j0,
                j1,
            ) == pt.leaf(m0, j0, j1),
        forall|j0: int|
            0 <= j0 < 512 && pt.has_mid(m0, j0) ==> m1.fview(#[trigger] pt.mid(m0, j0))
                == m0.fview(pt.mid(m0, j0)),
        forall|j0: int, j1: int|
            0 <= j0 < 512 && 0 <= j1 < 512 && pt.has_leaf_table(m0, j0, j1) && !(j0 == i0v && j1
                == i1v) ==> m1.fview(#[trigger] pt.leaf(m0, j0, j1)) == m0.fview(
                pt.leaf(m0, j0, j1),
            ),
        m1.fview(pt.root()) == m0.fview(pt.root()),
        m1.in_range(pt.root()) == m0.in_range(pt.root()),
        forall|q: u64| m0.in_range(q) ==> m1.in_range(q),
        forall|q: u64| #[trigger] m1.live(q) == m0.live(q),
    ensures
        pt.wf_in(m1),
        pt.nodes_live(m0) ==> pt.nodes_live(m1),
{
    let root = pt.root();
    assert(pt.wf_in(m1)) by {
        assert forall|j0: int|
            0 <= j0 < 512 && pt.has_mid(m1, j0) implies m1.is_table(#[trigger] pt.mid(m1, j0))
            && pt.mid(m1, j0) != root by {
            assert(m1.fview(pt.mid(m0, j0)) == m0.fview(pt.mid(m0, j0)));
        }
        assert forall|j0: int, j1: int|
            0 <= j0 < 512 && 0 <= j1 < 512 && pt.has_leaf_table(m1, j0, j1) implies m1.is_table(
            #[trigger] pt.leaf(m1, j0, j1),
        ) && pt.leaf(m1, j0, j1) != root by {
            if j0 == i0v && j1 == i1v {
            } else {
                assert(m1.fview(pt.leaf(m0, j0, j1)) == m0.fview(pt.leaf(m0, j0, j1)));
            }
        }
    }
    if pt.nodes_live(m0) {
        assert(pt.nodes_live(m1)) by {
            assert forall|j0: int| 0 <= j0 < 512 && pt.has_mid(m1, j0) implies m1.live(
                #[trigger] pt.mid(m1, j0),
            ) by {
                assert(pt.mid(m1, j0) == pt.mid(m0, j0));
                assert(m0.live(pt.mid(m0, j0)));
            }
            assert forall|j0: int, j1: int|
                0 <= j0 < 512 && 0 <= j1 < 512 && pt.has_leaf_table(m1, j0, j1) implies m1.live(
                #[trigger] pt.leaf(m1, j0, j1),
            ) by {
                assert(pt.leaf(m1, j0, j1) == pt.leaf(m0, j0, j1));
                assert(m0.live(pt.leaf(m0, j0, j1)));
            }
        }
    }
}

/// The translation part of overwriting a leaf entry: only the one virtual
/// page the slot serves changes.
#[verifier::rlimit(100)]
proof fn lemma_write_leaf_translations(
    pt: PageTable,
    m0: PhysMem,
    m1: PhysMem,
    i0v: int,
    i1v: int,
    i2v: int,
    pte: PageTableEntry,
)
    requires
        pt.has_leaf_table(m0, i0v, i1v),
        0 <= i0v < 512,
        0 <= i1v < 512,
        0 <= i2v < 512,
        m0.is_table(pt.leaf(m0, i0v, i1v)),
        m1.table_at(pt.leaf(m0, i0v, i1v)) == m0.table_at(pt.leaf(m0, i0v, i1v)).update(i2v, pte),
        forall|j0: int| 0 <= j0 < 512 ==> #[trigger] pt.has_mid(m1, j0) == pt.has_mid(m0, j0),
        forall|j0: int, j1: int|
            0 <= j0 < 512 && 0 <= j1 < 512 ==> #[trigger] pt.has_leaf_table(m1, j0, j1)
                == pt.has_leaf_table(m0, j0, j1),
        forall|j0: int, j1: int|
            0 <= j0 < 512 && 0 <= j1 < 512 && pt.has_leaf_table(m0, j0, j1) ==> #[trigger] pt.leaf(
                m1,
                j0,
                j1,
            ) == pt.leaf(m0, j0, j1),
        forall|j0: int, j1: int|
            0 <= j0 < 512 && 0 <= j1 < 512 && pt.has_leaf_table(m0, j0, j1) && !(j0 == i0v && j1
                == i1v) ==> m1.fview(#[trigger] pt.leaf(m0, j0, j1)) == m0.fview(
                pt.leaf(m0, j0, j1),
            ),
        forall|j0: int, j1: int, k0: int, k1: int|
            #![trigger pt.leaf(m0, j0, j1), pt.leaf(m0, k0, k1)]
            0 <= j0 < 512 && 0 <= j1 < 512 && 0 <= k0 < 512 && 0 <= k1 < 512 && !(j0 == k0 && j1
                == k1) && pt.has_leaf_table(m0, j0, j1) && pt.has_leaf_table(m0, k0, k1)
                ==> pt.leaf(m0, j0, j1) != pt.leaf(m0, k0, k1),
    ensures
        pt.spec_translate(m1, (i0v * 0x40000 + i1v * 512 + i2v) as u64) == Some(pte),
        forall|w: u64|
            w < VPN_BOUND && w != i0v * 0x40000 + i1v * 512 + i2v ==> #[trigger] pt.spec_translate(
                m1,
                w,
            ) == pt.spec_translate(m0, w),
{
    reveal(PageTable::spec_translate);
    let leafp = pt.leaf(m0, i0v, i1v);
    let wexpr: int = i0v * 0x40000 + i1v * 512 + i2v;
    assert(0 <= wexpr < 0x800_0000);
    let wv = wexpr as u64;
    assert(wv as int == wexpr);
    lemma_vpn_indices_decompose(i0v, i1v, i2v);
    assert(vpn_i0(wv as int) == i0v && vpn_i1(wv as int) == i1v && vpn_i2(wv as int) == i2v);
    assert(pt.has_leaf_table(m1, i0v, i1v));
    assert(pt.leaf(m1, i0v, i1v) == leafp);
    assert(m1.table_at(leafp)[i2v] == pte);
    assert(pt.spec_translate(m1, wv) == Some(pte));
    assert forall|w: u64| w < VPN_BOUND && w != wexpr implies #[trigger] pt.spec_translate(m1, w)
        == pt.spec_translate(m0, w) by {
        lemma_vpn_indices(w);
        let j0 = vpn_i0(w as int);
        let j1 = vpn_i1(w as int);
        let j2 = vpn_i2(w as int);
        if pt.has_leaf_table(m0, j0, j1) {
            assert(pt.has_leaf_table(m1, j0, j1) && pt.leaf(m1, j0, j1) == pt.leaf(m0, j0, j1));
            if j0 == i0v && j1 == i1v {
                assert(j2 != i2v) by {
                    if j2 == i2v {
                        lemma_vpn_indices_injective(w, wv);
                    }
                }
                assert(pt.leaf(m0, j0, j1) == leafp);
                assert(m1.table_at(leafp)[j2] == m0.table_at(leafp)[j2]);
            } else {
                assert(m1.fview(pt.leaf(m0, j0, j1)) == m0.fview(pt.leaf(m0, j0, j1)));
                assert(m1.table_at(pt.leaf(m0, j0, j1)) == m0.table_at(pt.leaf(m0, j0, j1)));
            }
        } else {
            assert(!pt.has_leaf_table(m1, j0, j1));
        }
    }
}


/// What a node-creating walk to `vpn` guarantees: the tree stays well
/// formed, gains at most the two nodes the path needed, maps nothing new,
/// and touches no frame beyond its own nodes.
pub open spec fn walk_extend_post(
    pt0: PageTable,
    pt1: PageTable,
    m0: PhysMem,
    m1: PhysMem,
    vpnv: u64,
) -> bool {
    let i0 = vpn_i0(vpnv as int);
    let i1 = vpn_i1(vpnv as int);
    &&& pt1.root() == pt0.root()
    &&& m1.wf()
    &&& same_extent(m0, m1)
    &&& pt1.wf_in(m1)
    &&& pt1.nodes_live(m1)
    &&& pt1.has_leaf_table(m1, i0, i1)
    &&& forall|j0: int|
        0 <= j0 < 512 && pt0.has_mid(m0, j0) ==> #[trigger] pt1.has_mid(m1, j0) && pt1.mid(m1, j0)
            == pt0.mid(m0, j0)
    &&& forall|j0: int, j1: int|
        0 <= j0 < 512 && 0 <= j1 < 512 && pt0.has_leaf_table(m0, j0, j1) ==> #[trigger] pt1.has_leaf_table(
            m1,
            j0,
            j1,
        ) && pt1.leaf(m1, j0, j1) == pt0.leaf(m0, j0, j1)
    &&& forall|w: u64|
        w < VPN_BOUND ==> #[trigger] pt1.spec_resolve(m1, w) == pt0.spec_resolve(m0, w)
    &&& forall|q: u64|
        m0.in_range(q) && q != pt1.root() && q != pt1.mid(m1, i0) && q != pt1.leaf(m1, i0, i1)
            ==> #[trigger] m1.fview(q) == m0.fview(q)
    &&& forall|q: u64| m0.live(q) ==> #[trigger] m1.live(q)
    &&& forall|q: u64|
        #[trigger] m1.live(q) ==> m0.live(q) || q == pt1.mid(m1, i0) || q == pt1.leaf(m1, i0, i1)
    &&& (pt0.has_mid(m0, i0) ==> pt1.mid(m1, i0) == pt0.mid(m0, i0))
    &&& (!pt0.has_mid(m0, i0) ==> !m0.live(pt1.mid(m1, i0)))
    &&& (pt0.has_leaf_table(m0, i0, i1) ==> pt1.leaf(m1, i0, i1) == pt0.leaf(m0, i0, i1))
    &&& (!pt0.has_leaf_table(m0, i0, i1) ==> !m0.live(pt1.leaf(m1, i0, i1)))
    &&& (!pt0.has_mid(m0, i0) ==> pt1.mid_entry(m1, i0).0 == pt1.mid(m1, i0) * 1024 + 1)
    &&& (!pt0.has_leaf_table(m0, i0, i1) ==> pt1.leaf_entry_ptr(m1, i0, i1).0 == pt1.leaf(
        m1,
        i0,
        i1,
    ) * 1024 + 1)
    &&& m1.free_count() == m0.free_count() - pt0.spec_missing(m0, vpnv)
    &&& m1.alloc_state().top() == m0.alloc_state().top()
}

/// What installing a translation for `vpnv` guarantees: exactly that page
/// resolves to the new entry, every other translation is untouched, and
/// the arena changed only at the path's nodes.
pub open spec fn map_post(
    pt0: PageTable,
    pt1: PageTable,
    m0: PhysMem,
    m1: PhysMem,
    vpnv: u64,
    ppnv: u64,
    fl: PTEFlags,
) -> bool {
    let i0 = vpn_i0(vpnv as int);
    let i1 = vpn_i1(vpnv as int);
    &&& pt1.root() == pt0.root()
    &&& m1.wf()
    &&& same_extent(m0, m1)
    &&& pt1.wf_in(m1)
    &&& pt1.nodes_live(m1)
    &&& (pt1.spec_resolve(m1, vpnv) matches Some(e) && e.spec_ppn() == ppnv && e.spec_flags()
        == flags_with_valid(fl))
    &&& forall|w: u64|
        w < VPN_BOUND && w != vpnv ==> #[trigger] pt1.spec_resolve(m1, w) == pt0.spec_resolve(
            m0,
            w,
        )
    &&& forall|j0: int|
        0 <= j0 < 512 && pt0.has_mid(m0, j0) ==> #[trigger] pt1.has_mid(m1, j0)
    &&& forall|j0: int, j1: int|
        0 <= j0 < 512 && 0 <= j1 < 512 && pt0.has_leaf_table(m0, j0, j1)
            ==> #[trigger] pt1.has_leaf_table(m1, j0, j1)
    &&& pt1.has_leaf_table(m1, i0, i1)
    &&& forall|q: u64|
        m0.in_range(q) && q != pt1.root() && q != pt1.mid(m1, i0) && q != pt1.leaf(m1, i0, i1)
            ==> #[trigger] m1.fview(q) == m0.fview(q)
    &&& forall|q: u64| m0.live(q) ==> #[trigger] m1.live(q)
    &&& forall|q: u64|
        #[trigger] m1.live(q) ==> m0.live(q) || q == pt1.mid(m1, i0) || q == pt1.leaf(m1, i0, i1)
    &&& (pt0.has_mid(m0, i0) ==> pt1.mid(m1, i0) == pt0.mid(m0, i0))
    &&& (!pt0.has_mid(m0, i0) ==> !m0.live(pt1.mid(m1, i0)))
    &&& (pt0.has_leaf_table(m0, i0, i1) ==> pt1.leaf(m1, i0, i1) == pt0.leaf(m0, i0, i1))
    &&& (!pt0.has_leaf_table(m0, i0, i1) ==> !m0.live(pt1.leaf(m1, i0, i1)))
    &&& (!pt0.has_mid(m0, i0) ==> pt1.mid_entry(m1, i0).0 == pt1.mid(m1, i0) * 1024 + 1)
    &&& (!pt0.has_leaf_table(m0, i0, i1) ==> pt1.leaf_entry_ptr(m1, i0, i1).0 == pt1.leaf(
        m1,
        i0,
        i1,
    ) * 1024 + 1)
    &&& m1.free_count() == m0.free_count() - pt0.spec_missing(m0, vpnv)
    &&& m1.alloc_state().top() == m0.alloc_state().top()
}

/// What removing the translation for `vpnv` guarantees: exactly that page
/// stops resolving, every other translation is untouched, the tree keeps
/// all its nodes, and the allocator is untouched.
pub open spec fn unmap_post(
    pt0: PageTable,
    pt1: PageTable,
    m0: PhysMem,
    m1: PhysMem,
    vpnv: u64,
) -> bool {
    let i0 = vpn_i0(vpnv as int);
    let i1 = vpn_i1(vpnv as int);
    &&& pt1.root() == pt0.root()
    &&& m1.wf()
    &&& same_extent(m0, m1)
    &&& pt1.wf_in(m1)
    &&& (pt0.nodes_live(m0) ==> pt1.nodes_live(m1))
    &&& pt1.spec_resolve(m1, vpnv) == None::<PageTableEntry>
    &&& pt1.spec_translate(m1, vpnv) == Some(PageTableEntry(0))
    &&& pt1.owned_nodes() == pt0.owned_nodes()
    &&& forall|w: u64|
        w < VPN_BOUND && w != vpnv ==> #[trigger] pt1.spec_resolve(m1, w) == pt0.spec_resolve(
            m0,
            w,
        )
    &&& forall|j0: int|
        0 <= j0 < 512 ==> #[trigger] pt1.has_mid(m1, j0) == pt0.has_mid(m0, j0)
    &&& forall|j0: int, j1: int|
        0 <= j0 < 512 && 0 <= j1 < 512 ==> #[trigger] pt1.has_leaf_table(m1, j0, j1)
            == pt0.has_leaf_table(m0, j0, j1)
    &&& forall|q: u64|
        m0.in_range(q) && q != pt0.leaf(m0, i0, i1) ==> #[trigger] m1.fview(q) == m0.fview(q)
    &&& forall|q: u64| #[trigger] m1.live(q) == m0.live(q)
    &&& m1.free_count() == m0.free_count()
    &&& m1.alloc_state().cur() == m0.alloc_state().cur()
    &&& m1.alloc_state().top() == m0.alloc_state().top()
    &&& m1.alloc_state().pool() == m0.alloc_state().pool()
}

impl PageTable {
    /// The walk that creates what it is missing: returns the leaf node and
    /// slot serving `vpn`, allocating and linking an empty middle or leaf
    /// node wherever the path was invalid. Exhaustion mid-walk is fatal in
    /// this design, so the contract demands enough free frames up front.
    #[verifier::rlimit(100)]
    #[verifier::spinoff_prover]
    fn find_pte_create(&self, mem: &mut PhysMem, vpn: VirtPageNum) -> (r: (
        PhysPageNum,
        usize,
        Vec<FrameTracker>,
    ))
        requires
            old(mem).wf(),
            self.wf_in(*old(mem)),
            self.nodes_live(*old(mem)),
            vpn.0 < VPN_BOUND,
            old(mem).free_count() >= self.spec_missing(*old(mem), vpn.0),
        ensures
            walk_extend_post(*self, *self, *old(mem), *final(mem), vpn.0),
            r.0.0 == self.leaf(*final(mem), vpn_i0(vpn.0 as int), vpn_i1(vpn.0 as int)),
            r.1 == vpn_i2(vpn.0 as int),
            final(mem).is_table(r.0.0),
            r.2@.len() == self.spec_missing(*old(mem), vpn.0),
            !self.has_mid(*old(mem), vpn_i0(vpn.0 as int)) ==> r.2@[0].ppn.0 == self.mid(
                *final(mem),
                vpn_i0(vpn.0 as int),
            ),
            !self.has_leaf_table(*old(mem), vpn_i0(vpn.0 as int), vpn_i1(vpn.0 as int))
                ==> r.2@.last().ppn.0 == self.leaf(
                *final(mem),
                vpn_i0(vpn.0 as int),
                vpn_i1(vpn.0 as int),
            ),
    {
        let mut new_frames: Vec<FrameTracker> = Vec::new();
        let ghost m0 = *old(mem);
        let idx = vpn.indexes();
        let ghost i0 = vpn_i0(vpn.0 as int);
        let ghost i1 = vpn_i1(vpn.0 as int);
        let root = self.root_ppn;
        let pte0 = mem.read_pte(root, idx[0]);
        if !pte0.is_valid() {
            let f = match frame_alloc(mem) {
                Some(f) => f,
                None => {
                    proof {
                        assert(false);
                    }
                    FrameTracker { ppn: PhysPageNum(0) }
                },
            };
            let ghost m_a = *mem;
            let fp = f.ppn;
            mem.set_table(fp);
            let ghost m_b = *mem;
            proof {
                assert(m0.live(self.root()));
                assert(fp.0 != self.root());
                assert(mem.fview(self.root()) == m0.fview(self.root()));
                assert(mem.is_table(self.root()));
                assert(fp.0 < PPN_BOUND);
            }
            let pte_new = PageTableEntry::new(fp, PTEFlags { v: true, ..PTEFlags::empty() });
            mem.write_pte(root, idx[0], pte_new);
            new_frames.push(f);
            proof {
                assert forall|q: u64|
                    m0.in_range(q) && q != self.root() && q != fp.0 implies #[trigger] mem.fview(q)
                    == m0.fview(q) by {
                    assert(m_a.fview(q) == m0.fview(q));
                    assert(m_b.fview(q) == m_a.fview(q));
                }
                assert(mem.table_at(self.root()) == m0.table_at(self.root()).update(
                    i0,
                    pte_new,
                ));
                assert(mem.table_at(fp.0) == Seq::new(512, |k: int| PageTableEntry(0))) by {
                    assert(mem.fview(fp.0) == m_b.fview(fp.0));
                }
                assert(mem.is_table(fp.0));
                assert forall|q: u64| m0.live(q) implies #[trigger] mem.live(q) by {
                    assert(m_a.live(q));
                }
                assert forall|q: u64| #[trigger] mem.live(q) implies m0.live(q) || q == fp.0 by {
                    assert(m_a.live(q));
                }
                lemma_create_mid(*self, m0, *mem, fp.0, i0, pte_new);
            }
        }
        let ghost m1 = *mem;
        proof {
            assert(self.wf_in(m1) && self.nodes_live(m1) && self.has_mid(m1, i0));
            if pte0.spec_valid() {
                assert(self.mid(m1, i0) == self.mid(m0, i0));
            }
            assert(!pte0.spec_valid() ==> !self.has_leaf_table(m1, i0, i1));
            assert(m1.free_count() == m0.free_count() - (if self.has_mid(m0, i0) {
                0int
            } else {
                1int
            }));
        }
        let pte0b = mem.read_pte(root, idx[0]);
        let midp = pte0b.ppn();
        proof {
            assert(midp.0 == self.mid(m1, i0));
            assert(mem.is_table(midp.0));
        }
        let pte1 = mem.read_pte(midp, idx[1]);
        if !pte1.is_valid() {
            let f = match frame_alloc(mem) {
                Some(f) => f,
                None => {
                    proof {
                        assert(false);
                    }
                    FrameTracker { ppn: PhysPageNum(0) }
                },
            };
            let ghost m_a = *mem;
            let fp = f.ppn;
            mem.set_table(fp);
            let ghost m_b = *mem;
            proof {
                assert(m1.live(midp.0));
                assert(fp.0 != midp.0);
                assert(mem.fview(midp.0) == m1.fview(midp.0));
                assert(mem.is_table(midp.0));
                assert(fp.0 < PPN_BOUND);
            }
            let pte_new = PageTableEntry::new(fp, PTEFlags { v: true, ..PTEFlags::empty() });
            mem.write_pte(midp, idx[1], pte_new);
            new_frames.push(f);
            proof {
                assert forall|q: u64|
                    m1.in_range(q) && q != midp.0 && q != fp.0 implies #[trigger] mem.fview(q)
                    == m1.fview(q) by {
                    assert(m_a.fview(q) == m1.fview(q));
                    assert(m_b.fview(q) == m_a.fview(q));
                }
                assert(mem.table_at(midp.0) == m1.table_at(midp.0).update(i1, pte_new));
                assert(mem.table_at(fp.0) == Seq::new(512, |k: int| PageTableEntry(0))) by {
                    assert(mem.fview(fp.0) == m_b.fview(fp.0));
                }
                assert(mem.is_table(fp.0));
                assert forall|q: u64| m1.live(q) implies #[trigger] mem.live(q) by {
                    assert(m_a.live(q));
                }
                assert forall|q: u64| #[trigger] mem.live(q) implies m1.live(q) || q == fp.0 by {
                    assert(m_a.live(q));
                }
                lemma_create_leaf(*self, m1, *mem, fp.0, i0, i1, pte_new);
            }
        }
        let ghost m2 = *mem;
        proof {
            lemma_compose_walk_steps(*self, *self, m0, m1, m2, vpn.0, pte0.spec_valid(), pte1.spec_valid());
        }
        let pte1b = mem.read_pte(midp, idx[1]);
        let leafp = pte1b.ppn();
        proof {
            assert(leafp.0 == self.leaf(m2, i0, i1));
            assert(mem.is_table(leafp.0));
        }
        (leafp, idx[2], new_frames)
    }

    /// Installs a translation: finds or creates the leaf slot for `vpn` and
    /// writes `ppn` with `flags`, forcing the Valid bit on. Mapping a page
    /// that is already mapped is a fatal programming error; the contract
    /// rules it out.
    #[verifier::rlimit(100)]
    #[verifier::spinoff_prover]
    pub fn map(&mut self, mem: &mut PhysMem, vpn: VirtPageNum, ppn: PhysPageNum, flags: PTEFlags)
        requires
            old(mem).wf(),
            old(self).wf_in(*old(mem)),
            old(self).nodes_live(*old(mem)),
            vpn.0 < VPN_BOUND,
            ppn.0 < PPN_BOUND,
            !old(self).is_mapped(*old(mem), vpn.0),
            old(mem).free_count() >= old(self).spec_missing(*old(mem), vpn.0),
        ensures
            map_post(*old(self), *final(self), *old(mem), *final(mem), vpn.0, ppn.0, flags),
            final(self).owned_nodes().len() == old(self).owned_nodes().len() + old(
                self,
            ).spec_missing(*old(mem), vpn.0),
            forall|k: int|
                0 <= k < old(self).owned_nodes().len() ==> #[trigger] final(self).owned_nodes()[k]
                    == old(self).owned_nodes()[k],
            !old(self).has_mid(*old(mem), vpn_i0(vpn.0 as int)) ==> final(self).owned_nodes()[old(
                self,
            ).owned_nodes().len() as int].0 == final(self).mid(*final(mem), vpn_i0(vpn.0 as int)),
            !old(self).has_leaf_table(*old(mem), vpn_i0(vpn.0 as int), vpn_i1(vpn.0 as int))
                ==> final(self).owned_nodes().last().0 == final(self).leaf(
                *final(mem),
                vpn_i0(vpn.0 as int),
                vpn_i1(vpn.0 as int),
            ),
    {
        let ghost m0 = *old(mem);
        let ghost pt0 = *old(self);
        let ghost i0 = vpn_i0(vpn.0 as int);
        let ghost i1 = vpn_i1(vpn.0 as int);
        let (leafp, i2, mut new_frames) = self.find_pte_create(mem, vpn);
        let ghost m1 = *mem;
        let new_flags = PTEFlags { v: true, ..flags };
        proof {
            lemma_flags_roundtrip(new_flags);
        }
        let pte = PageTableEntry::new(ppn, new_flags);
        let ghost new_frames_snap = new_frames@;
        mem.write_pte(leafp, i2, pte);
        self.frames.append(&mut new_frames);
        proof {
            lemma_vpn_indices(vpn.0);
            assert forall|q: u64| #[trigger] mem.live(q) == m1.live(q) by {}
            lemma_write_leaf(pt0, m1, *mem, i0, i1, vpn_i2(vpn.0 as int), pte);
            assert(pt0.spec_translate(*mem, vpn.0) == Some(pte));
            assert(pte.spec_valid());
            assert forall|w: u64|
                w < VPN_BOUND && w != vpn.0 implies #[trigger] pt0.spec_resolve(*mem, w)
                == pt0.spec_resolve(m0, w) by {
                assert(pt0.spec_translate(*mem, w) == pt0.spec_translate(m1, w));
                assert(pt0.spec_resolve(m1, w) == pt0.spec_resolve(m0, w));
            }
            assert forall|q: u64|
                m0.in_range(q) && q != pt0.root() && q != pt0.mid(*mem, i0) && q != pt0.leaf(
                    *mem,
                    i0,
                    i1,
                ) implies #[trigger] mem.fview(q) == m0.fview(q) by {
                assert(pt0.mid(*mem, i0) == pt0.mid(m1, i0));
                assert(pt0.leaf(*mem, i0, i1) == pt0.leaf(m1, i0, i1));
                assert(m1.fview(q) == m0.fview(q));
            }
            assert(pt0.mid(*mem, i0) == pt0.mid(m1, i0));
            assert(pt0.leaf(*mem, i0, i1) == pt0.leaf(m1, i0, i1));
            assert(pt0.has_mid(m0, i0) ==> pt0.mid(*mem, i0) == pt0.mid(m0, i0));
            assert(!pt0.has_mid(m0, i0) ==> !m0.live(pt0.mid(*mem, i0)));
            assert(pt0.has_leaf_table(m0, i0, i1) ==> pt0.leaf(*mem, i0, i1) == pt0.leaf(
                m0,
                i0,
                i1,
            ));
            assert(!pt0.has_leaf_table(m0, i0, i1) ==> !m0.live(pt0.leaf(*mem, i0, i1)));
            assert(map_post(pt0, pt0, m0, *mem, vpn.0, ppn.0, flags));
            lemma_same_root(pt0, *self, *mem);
            lemma_same_root_transfers(pt0, *self, m0, *mem, vpn.0, ppn.0, flags);
            assert forall|k: int|
                0 <= k < pt0.owned_nodes().len() implies #[trigger] self.owned_nodes()[k]
                == pt0.owned_nodes()[k] by {
                assert(self.frames()[k] == pt0.frames()[k]);
            }
            assert(self.owned_nodes().len() == pt0.owned_nodes().len() + pt0.spec_missing(
                m0,
                vpn.0,
            ));
            if !pt0.has_mid(m0, i0) {
                assert(self.owned_nodes()[pt0.owned_nodes().len() as int].0 == self.mid(
                    *mem,
                    i0,
                )) by {
                    assert(self.frames()[pt0.frames().len() as int] == new_frames_snap[0]);
                    assert(self.mid(*mem, i0) == pt0.mid(*mem, i0) && pt0.mid(*mem, i0)
                        == pt0.mid(m1, i0));
                }
            }
            if !pt0.has_leaf_table(m0, i0, i1) {
                assert(self.owned_nodes().last().0 == self.leaf(*mem, i0, i1)) by {
                    assert(self.frames().last() == new_frames_snap.last());
                    assert(self.leaf(*mem, i0, i1) == pt0.leaf(*mem, i0, i1) && pt0.leaf(
                        *mem,
                        i0,
                        i1,
                    ) == pt0.leaf(m1, i0, i1));
                }
            }
        }
    }

    /// Removes the translation for `vpn`, clearing its leaf entry.
    /// Unmapping a page that is not mapped is a fatal programming error;
    /// the contract rules it out.
    pub fn unmap(&mut self, mem: &mut PhysMem, vpn: VirtPageNum)
        requires
            old(mem).wf(),
            old(self).wf_in(*old(mem)),
            vpn.0 < VPN_BOUND,
            old(self).is_mapped(*old(mem), vpn.0),
        ensures
            unmap_post(*old(self), *final(self), *old(mem), *final(mem), vpn.0),
    {
        let ghost m0 = *old(mem);
        let ghost pt0 = *old(self);
        let ghost i0 = vpn_i0(vpn.0 as int);
        let ghost i1 = vpn_i1(vpn.0 as int);
        let r = self.find_pte(mem, vpn);
        let (leafp, i2) = match r {
            Some(x) => x,
            None => {
                proof {
                    assert(false);
                }
                (PhysPageNum(0), 0usize)
            },
        };
        let empty = PageTableEntry::empty();
        mem.write_pte(leafp, i2, empty);
        proof {
            lemma_vpn_indices(vpn.0);
            assert forall|q: u64| #[trigger] mem.live(q) == m0.live(q) by {}
            lemma_write_leaf(pt0, m0, *mem, i0, i1, vpn_i2(vpn.0 as int), empty);
            assert(pt0.spec_translate(*mem, vpn.0) == Some(empty));
            assert(!empty.spec_valid());
            assert forall|w: u64|
                w < VPN_BOUND && w != vpn.0 implies #[trigger] pt0.spec_resolve(*mem, w)
                == pt0.spec_resolve(m0, w) by {
                assert(pt0.spec_translate(*mem, w) == pt0.spec_translate(m0, w));
            }
        }
    }
}

/// Composes the two creation steps of a walk into the whole walk's
/// guarantee.
#[verifier::rlimit(100)]
#[verifier::spinoff_prover]
proof fn lemma_compose_walk_steps(
    pt0: PageTable,
    pt1: PageTable,
    m0: PhysMem,
    m1: PhysMem,
    m2: PhysMem,
    vpnv: u64,
    had_mid: bool,
    had_leaf_entry: bool,
)
    requires
        vpnv < VPN_BOUND,
        pt1.root() == pt0.root(),
        m0.wf(),
        m1.wf(),
        m2.wf(),
        same_extent(m0, m1),
        same_extent(m1, m2),
        pt0.wf_in(m0),
        pt0.nodes_live(m0),
        pt1.wf_in(m2),
        pt1.nodes_live(m2),
        had_mid == pt0.has_mid(m0, vpn_i0(vpnv as int)),
        // step one: middle node ensured
        ({
            let i0 = vpn_i0(vpnv as int);
            &&& pt1.has_mid(m1, i0)
            &&& pt1.wf_in(m1)
            &&& pt1.nodes_live(m1)
            &&& (had_mid ==> m1 == m0)
            &&& (!had_mid ==> {
                &&& !m0.live(pt1.mid(m1, i0))
                &&& forall|j0: int|
                    0 <= j0 < 512 && j0 != i0 ==> #[trigger] pt1.has_mid(m1, j0) == pt0.has_mid(
                        m0,
                        j0,
                    )
                &&& forall|j0: int|
                    0 <= j0 < 512 && j0 != i0 && pt0.has_mid(m0, j0) ==> #[trigger] pt1.mid(m1, j0)
                        == pt0.mid(m0, j0)
                &&& forall|j0: int, j1: int|
                    0 <= j0 < 512 && 0 <= j1 < 512 ==> (#[trigger] pt1.has_leaf_table(m1, j0, j1)
                        == (pt0.has_leaf_table(m0, j0, j1) && j0 != i0))
                &&& forall|j0: int, j1: int|
                    0 <= j0 < 512 && 0 <= j1 < 512 && pt0.has_leaf_table(m0, j0, j1)
                        ==> #[trigger] pt1.leaf(m1, j0, j1) == pt0.leaf(m0, j0, j1)
                &&& forall|w: u64|
                    w < VPN_BOUND ==> #[trigger] pt1.spec_resolve(m1, w) == pt0.spec_resolve(m0, w)
                &&& forall|q: u64|
                    m0.in_range(q) && q != pt1.root() && q != pt1.mid(m1, i0)
                        ==> #[trigger] m1.fview(q) == m0.fview(q)
                &&& forall|q: u64| m0.live(q) ==> #[trigger] m1.live(q)
                &&& forall|q: u64|
                    #[trigger] m1.live(q) ==> m0.live(q) || q == pt1.mid(m1, i0)
                &&& m1.live(pt1.mid(m1, i0))
                &&& pt1.mid_entry(m1, i0).0 == pt1.mid(m1, i0) * 1024 + 1
            })
            &&& m1.free_count() == m0.free_count() - (if had_mid {
                0int
            } else {
                1int
            })
            &&& m1.alloc_state().top() == m0.alloc_state().top()
        }),
        had_leaf_entry ==> pt1.has_leaf_table(m1, vpn_i0(vpnv as int), vpn_i1(vpnv as int)),
        !had_leaf_entry ==> !pt1.has_leaf_table(m1, vpn_i0(vpnv as int), vpn_i1(vpnv as int)),
        // step two: leaf node ensured
        ({
            let i0 = vpn_i0(vpnv as int);
            let i1 = vpn_i1(vpnv as int);
            &&& pt1.has_leaf_table(m2, i0, i1)
            &&& (had_leaf_entry ==> m2 == m1)
            &&& (!had_leaf_entry ==> {
                &&& !m1.live(pt1.leaf(m2, i0, i1))
                &&& forall|j0: int|
                    0 <= j0 < 512 ==> #[trigger] pt1.has_mid(m2, j0) == pt1.has_mid(m1, j0)
                &&& forall|j0: int|
                    0 <= j0 < 512 && pt1.has_mid(m1, j0) ==> #[trigger] pt1.mid(m2, j0) == pt1.mid(
                        m1,
                        j0,
                    )
                &&& forall|j0: int, j1: int|
                    0 <= j0 < 512 && 0 <= j1 < 512 && !(j0 == i0 && j1 == i1) ==> (
                    #[trigger] pt1.has_leaf_table(m2, j0, j1) == pt1.has_leaf_table(m1, j0, j1))
                &&& forall|j0: int, j1: int|
                    0 <= j0 < 512 && 0 <= j1 < 512 && pt1.has_leaf_table(m1, j0, j1)
                        ==> #[trigger] pt1.leaf(m2, j0, j1) == pt1.leaf(m1, j0, j1)
                &&& forall|w: u64|
                    w < VPN_BOUND ==> #[trigger] pt1.spec_resolve(m2, w) == pt1.spec_resolve(m1, w)
                &&& forall|q: u64|
                    m1.in_range(q) && q != pt1.mid(m1, i0) && q != pt1.leaf(m2, i0, i1)
                        ==> #[trigger] m2.fview(q) == m1.fview(q)
                &&& forall|q: u64| m1.live(q) ==> #[trigger] m2.live(q)
                &&& forall|q: u64|
                    #[trigger] m2.live(q) ==> m1.live(q) || q == pt1.leaf(m2, i0, i1)
                &&& pt1.leaf_entry_ptr(m2, i0, i1).0 == pt1.leaf(m2, i0, i1) * 1024 + 1
                &&& forall|j0: int|
                    0 <= j0 < 512 ==> #[trigger] pt1.mid_entry(m2, j0) == pt1.mid_entry(m1, j0)
            })
            &&& m2.free_count() == m1.free_count() - (if had_leaf_entry {
                0int
            } else {
                1int
            })
            &&& m2.alloc_state().top() == m1.alloc_state().top()
        }),
    ensures
        walk_extend_post(pt0, pt1, m0, m2, vpnv),
{
    reveal(PageTable::spec_translate);
    let i0 = vpn_i0(vpnv as int);
    let i1 = vpn_i1(vpnv as int);
    lemma_vpn_indices(vpnv);
    if !had_mid {
        assert(!pt0.has_leaf_table(m0, i0, i1));
    }
    assert(pt0.spec_missing(m0, vpnv) == (if had_mid {
        0int
    } else {
        1int
    }) + (if had_leaf_entry {
        0int
    } else {
        1int
    }));
    if had_mid && had_leaf_entry {
    } else if had_mid {
        // only the leaf step changed anything
        assert forall|j0: int, j1: int|
            0 <= j0 < 512 && 0 <= j1 < 512 && pt0.has_leaf_table(m0, j0, j1) implies
        #[trigger] pt1.has_leaf_table(m2, j0, j1) && pt1.leaf(m2, j0, j1) == pt0.leaf(
            m0,
            j0,
            j1,
        ) by {
            assert(!(j0 == i0 && j1 == i1));
        }
    } else {
        // both steps changed the arena; chain their framing
        assert forall|q: u64|
            m0.in_range(q) && q != pt1.root() && q != pt1.mid(m2, i0) && q != pt1.leaf(
                m2,
                i0,
                i1,
            ) implies #[trigger] m2.fview(q) == m0.fview(q) by {
            assert(pt1.mid(m2, i0) == pt1.mid(m1, i0));
            assert(m1.fview(q) == m0.fview(q));
        }
        assert forall|j0: int, j1: int|
            0 <= j0 < 512 && 0 <= j1 < 512 && pt0.has_leaf_table(m0, j0, j1) implies
        #[trigger] pt1.has_leaf_table(m2, j0, j1) && pt1.leaf(m2, j0, j1) == pt0.leaf(
            m0,
            j0,
            j1,
        ) by {
            assert(j0 != i0);
            assert(pt1.has_leaf_table(m1, j0, j1));
        }
    }
}

/// Two tables with the same root read identically from the same arena.
pub proof fn lemma_same_root(pt0: PageTable, pt1: PageTable, mem: PhysMem)
    requires
        pt1.root() == pt0.root(),
    ensures
        forall|i0: int| #[trigger] pt1.has_mid(mem, i0) == pt0.has_mid(mem, i0),
        forall|i0: int| #[trigger] pt1.mid(mem, i0) == pt0.mid(mem, i0),
        forall|i0: int, i1: int|
            #[trigger] pt1.has_leaf_table(mem, i0, i1) == pt0.has_leaf_table(mem, i0, i1),
        forall|i0: int, i1: int| #[trigger] pt1.leaf(mem, i0, i1) == pt0.leaf(mem, i0, i1),
        forall|w: u64| #[trigger] pt1.spec_translate(mem, w) == pt0.spec_translate(mem, w),
        forall|w: u64| #[trigger] pt1.spec_resolve(mem, w) == pt0.spec_resolve(mem, w),
        forall|w: u64| #[trigger] pt1.spec_missing(mem, w) == pt0.spec_missing(mem, w),
        pt1.wf_in(mem) == pt0.wf_in(mem),
        pt1.nodes_live(mem) == pt0.nodes_live(mem),
{
    reveal(PageTable::spec_translate);
    assert forall|i0: int| #[trigger] pt1.mid_entry(mem, i0) == pt0.mid_entry(mem, i0) by {}
    assert forall|i0: int, i1: int| #[trigger] pt1.leaf_entry_ptr(mem, i0, i1)
        == pt0.leaf_entry_ptr(mem, i0, i1) by {
        assert(pt1.mid(mem, i0) == pt0.mid(mem, i0));
    }
    if pt0.wf_in(mem) {
        lemma_same_root_wf(pt0, pt1, mem);
    }
    if pt1.wf_in(mem) {
        lemma_same_root_wf(pt1, pt0, mem);
    }
    if pt0.nodes_live(mem) {
        lemma_same_root_live(pt0, pt1, mem);
    }
    if pt1.nodes_live(mem) {
        lemma_same_root_live(pt1, pt0, mem);
    }
}

/// One direction of [`lemma_same_root`]: well-formedness carries over to a
/// table with the same root.
proof fn lemma_same_root_wf(a: PageTable, b: PageTable, mem: PhysMem)
    requires
        b.root() == a.root(),
        a.wf_in(mem),
    ensures
        b.wf_in(mem),
{
    assert forall|i0: int| #[trigger] b.mid_entry(mem, i0) == a.mid_entry(mem, i0) by {}
    assert forall|i0: int, i1: int| #[trigger] b.leaf_entry_ptr(mem, i0, i1) == a.leaf_entry_ptr(
        mem,
        i0,
        i1,
    ) by {
        assert(b.mid(mem, i0) == a.mid(mem, i0));
    }
    assert forall|i0: int| 0 <= i0 < 512 && b.has_mid(mem, i0) implies mem.is_table(
        #[trigger] b.mid(mem, i0),
    ) && b.mid(mem, i0) != b.root() by {
        assert(b.mid(mem, i0) == a.mid(mem, i0) && a.has_mid(mem, i0));
    }
    assert forall|i0: int, i1: int|
        0 <= i0 < 512 && 0 <= i1 < 512 && b.has_leaf_table(mem, i0, i1) implies mem.is_table(
        #[trigger] b.leaf(mem, i0, i1),
    ) && b.leaf(mem, i0, i1) != b.root() by {
        assert(b.leaf(mem, i0, i1) == a.leaf(mem, i0, i1) && a.has_leaf_table(mem, i0, i1));
    }
    assert forall|i0: int, i1: int, j0: int|
        #![trigger b.leaf(mem, i0, i1), b.mid(mem, j0)]
        0 <= i0 < 512 && 0 <= i1 < 512 && 0 <= j0 < 512 && b.has_leaf_table(mem, i0, i1)
            && b.has_mid(mem, j0) implies b.leaf(mem, i0, i1) != b.mid(mem, j0) by {
        assert(b.leaf(mem, i0, i1) == a.leaf(mem, i0, i1) && b.mid(mem, j0) == a.mid(mem, j0));
        assert(a.has_leaf_table(mem, i0, i1) && a.has_mid(mem, j0));
    }
    assert forall|i0: int, j0: int|
        #![trigger b.mid(mem, i0), b.mid(mem, j0)]
        0 <= i0 < 512 && 0 <= j0 < 512 && i0 != j0 && b.has_mid(mem, i0) && b.has_mid(
            mem,
            j0,
        ) implies b.mid(mem, i0) != b.mid(mem, j0) by {
        assert(b.mid(mem, i0) == a.mid(mem, i0) && b.mid(mem, j0) == a.mid(mem, j0));
        assert(a.has_mid(mem, i0) && a.has_mid(mem, j0));
    }
    assert forall|i0: int, i1: int, j0: int, j1: int|
        #![trigger b.leaf(mem, i0, i1), b.leaf(mem, j0, j1)]
        0 <= i0 < 512 && 0 <= i1 < 512 && 0 <= j0 < 512 && 0 <= j1 < 512 && !(i0 == j0 && i1 == j1)
            && b.has_leaf_table(mem, i0, i1) && b.has_leaf_table(mem, j0, j1) implies b.leaf(
        mem,
        i0,
        i1,
    ) != b.leaf(mem, j0, j1) by {
        assert(b.leaf(mem, i0, i1) == a.leaf(mem, i0, i1) && b.leaf(mem, j0, j1) == a.leaf(
            mem,
            j0,
            j1,
        ));
        assert(a.has_leaf_table(mem, i0, i1) && a.has_leaf_table(mem, j0, j1));
    }
}

/// One direction of [`lemma_same_root`]: node liveness carries over to a
/// table with the same root.
proof fn lemma_same_root_live(a: PageTable, b: PageTable, mem: PhysMem)
    requires
        b.root() == a.root(),
        a.nodes_live(mem),
    ensures
        b.nodes_live(mem),
{
    assert forall|i0: int| #[trigger] b.mid_entry(mem, i0) == a.mid_entry(mem, i0) by {}
    assert forall|i0: int, i1: int| #[trigger] b.leaf_entry_ptr(mem, i0, i1) == a.leaf_entry_ptr(
        mem,
        i0,
        i1,
    ) by {
        assert(b.mid(mem, i0) == a.mid(mem, i0));
    }
    assert forall|i0: int| 0 <= i0 < 512 && b.has_mid(mem, i0) implies mem.live(
        #[trigger] b.mid(mem, i0),
    ) by {
        assert(b.mid(mem, i0) == a.mid(mem, i0) && a.has_mid(mem, i0));
    }
    assert forall|i0: int, i1: int|
        0 <= i0 < 512 && 0 <= i1 < 512 && b.has_leaf_table(mem, i0, i1) implies mem.live(
        #[trigger] b.leaf(mem, i0, i1),
    ) by {
        assert(b.leaf(mem, i0, i1) == a.leaf(mem, i0, i1) && a.has_leaf_table(mem, i0, i1));
    }
}

/// A map guarantee stated of one table holds of any table with the same
/// root.
proof fn lemma_same_root_transfers(
    pt0: PageTable,
    pt1: PageTable,
    m0: PhysMem,
    m1: PhysMem,
    vpnv: u64,
    ppnv: u64,
    fl: PTEFlags,
)
    requires
        pt1.root() == pt0.root(),
        vpnv < VPN_BOUND,
        map_post(pt0, pt0, m0, m1, vpnv, ppnv, fl),
    ensures
        map_post(pt0, pt1, m0, m1, vpnv, ppnv, fl),
{
    lemma_same_root(pt0, pt1, m1);
}

/// Reconstructing a table from its own activation token selects the same
/// root: the mode tag vanishes under the page-number mask.
pub proof fn lemma_satp_roundtrip(pt: PageTable)
    requires
        pt.root() < PPN_BOUND,
    ensures
        pt.spec_satp() % PPN_BOUND == pt.root(),
{
    vstd::arithmetic::div_mod::lemma_mod_multiples_vanish(
        0x20_0000,
        pt.root() as int,
        PPN_BOUND as int,
    );
    vstd::arithmetic::div_mod::lemma_small_mod(pt.root() as nat, PPN_BOUND as nat);
}

} // verus!
