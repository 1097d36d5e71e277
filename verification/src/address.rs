//! Address algebra: typed virtual/physical addresses and page numbers.
//!
//! Addresses are plain machine words of which only the low [`crate::config::VA_WIDTH`]
//! (virtual) or [`crate::config::PA_WIDTH`] (physical) bits are significant;
//! construction from a raw word reduces modulo the corresponding bound, and
//! widening a virtual address back to a full word sign-extends its top bit
//! (the canonical-address rule of the hardware). Page numbers are addresses
//! with the page offset stripped.

use vstd::arithmetic::div_mod::{lemma_div_plus_one, lemma_fundamental_div_mod};
use vstd::prelude::*;

use crate::config::{PA_BOUND, PPN_BOUND, VA_BOUND, VPN_BOUND};

verus! {

/// Bytes in one page, as an address-width word.
pub const PAGE_BYTES: u64 = 0x1000;

/// A virtual address; only the low 39 bits are significant.
#[derive(Clone, Copy, Debug, PartialEq, Eq, Structural)]
pub struct VirtAddr(pub u64);

/// A virtual page number; only the low 27 bits are significant.
#[derive(Clone, Copy, Debug, PartialEq, Eq, Structural)]
pub struct VirtPageNum(pub u64);

/// A physical address; only the low 54 bits are significant.
#[derive(Clone, Copy, Debug, PartialEq, Eq, Structural)]
pub struct PhysAddr(pub u64);

/// A physical page number; only the low 42 bits are significant.
#[derive(Clone, Copy, Debug, PartialEq, Eq, Structural)]
pub struct PhysPageNum(pub u64);

impl core::convert::From<u64> for VirtAddr {
    /// Keeps the significant low bits of a raw word.
    fn from(value: u64) -> Self {
        VirtAddr(value % VA_BOUND)
    }
}

impl vstd::std_specs::convert::FromSpecImpl<u64> for VirtAddr {
    open spec fn obeys_from_spec() -> bool {
        true
    }

    open spec fn from_spec(value: u64) -> Self {
        VirtAddr(value % VA_BOUND)
    }
}

impl core::convert::From<u64> for PhysAddr {
    /// Keeps the significant low bits of a raw word.
    fn from(value: u64) -> Self {
        PhysAddr(value % PA_BOUND)
    }
}

impl vstd::std_specs::convert::FromSpecImpl<u64> for PhysAddr {
    open spec fn obeys_from_spec() -> bool {
        true
    }

    open spec fn from_spec(value: u64) -> Self {
        PhysAddr(value % PA_BOUND)
    }
}

impl core::convert::From<u64> for VirtPageNum {
    /// Keeps the significant low bits of a raw word.
    fn from(value: u64) -> Self {
        VirtPageNum(value % VPN_BOUND)
    }
}

impl vstd::std_specs::convert::FromSpecImpl<u64> for VirtPageNum {
    open spec fn obeys_from_spec() -> bool {
        true
    }

    open spec fn from_spec(value: u64) -> Self {
        VirtPageNum(value % VPN_BOUND)
    }
}

impl core::convert::From<u64> for PhysPageNum {
    /// Keeps the significant low bits of a raw word.
    fn from(value: u64) -> Self {
        PhysPageNum(value % PPN_BOUND)
    }
}

impl vstd::std_specs::convert::FromSpecImpl<u64> for PhysPageNum {
    open spec fn obeys_from_spec() -> bool {
        true
    }

    open spec fn from_spec(value: u64) -> Self {
        PhysPageNum(value % PPN_BOUND)
    }
}

/// The value a virtual address widens to: bit 38 is sign-extended so that
/// the word is canonical for the hardware.
pub open spec fn spec_va_widen(v: VirtAddr) -> u64 {
    if v.0 >= 0x40_0000_0000 {
        v.0 | 0xffff_ff80_0000_0000
    } else {
        v.0
    }
}

impl core::convert::From<VirtAddr> for u64 {
    /// Widens to a canonical word by sign-extending bit 38.
    fn from(value: VirtAddr) -> Self {
        if value.0 >= 0x40_0000_0000 {
            value.0 | 0xffff_ff80_0000_0000
        } else {
            value.0
        }
    }
}

impl vstd::std_specs::convert::FromSpecImpl<VirtAddr> for u64 {
    open spec fn obeys_from_spec() -> bool {
        true
    }

    open spec fn from_spec(value: VirtAddr) -> Self {
        spec_va_widen(value)
    }
}

impl core::convert::From<PhysAddr> for u64 {
    fn from(value: PhysAddr) -> Self {
        value.0
    }
}

impl vstd::std_specs::convert::FromSpecImpl<PhysAddr> for u64 {
    open spec fn obeys_from_spec() -> bool {
        true
    }

    open spec fn from_spec(value: PhysAddr) -> Self {
        value.0
    }
}

impl core::convert::From<VirtPageNum> for u64 {
    fn from(value: VirtPageNum) -> Self {
        value.0
    }
}

impl vstd::std_specs::convert::FromSpecImpl<VirtPageNum> for u64 {
    open spec fn obeys_from_spec() -> bool {
        true
    }

    open spec fn from_spec(value: VirtPageNum) -> Self {
        value.0
    }
}

impl core::convert::From<PhysPageNum> for u64 {
    fn from(value: PhysPageNum) -> Self {
        value.0
    }
}

impl vstd::std_specs::convert::FromSpecImpl<PhysPageNum> for u64 {
    open spec fn obeys_from_spec() -> bool {
        true
    }

    open spec fn from_spec(value: PhysPageNum) -> Self {
        value.0
    }
}

impl core::convert::From<VirtPageNum> for VirtAddr {
    /// The first address of the page.
    fn from(value: VirtPageNum) -> Self {
        VirtAddr((value.0 % VPN_BOUND) * PAGE_BYTES)
    }
}

impl vstd::std_specs::convert::FromSpecImpl<VirtPageNum> for VirtAddr {
    open spec fn obeys_from_spec() -> bool {
        true
    }

    open spec fn from_spec(value: VirtPageNum) -> Self {
        VirtAddr(((value.0 % VPN_BOUND) * PAGE_BYTES) as u64)
    }
}

impl core::convert::From<VirtAddr> for VirtPageNum {
    /// The page the address falls in.
    fn from(value: VirtAddr) -> Self {
        value.floor()
    }
}

impl vstd::std_specs::convert::FromSpecImpl<VirtAddr> for VirtPageNum {
    open spec fn obeys_from_spec() -> bool {
        true
    }

    open spec fn from_spec(value: VirtAddr) -> Self {
        VirtPageNum((value.0 / PAGE_BYTES) as u64)
    }
}

impl core::convert::From<PhysPageNum> for PhysAddr {
    /// The first address of the page.
    fn from(value: PhysPageNum) -> Self {
        PhysAddr((value.0 % PPN_BOUND) * PAGE_BYTES)
    }
}

impl vstd::std_specs::convert::FromSpecImpl<PhysPageNum> for PhysAddr {
    open spec fn obeys_from_spec() -> bool {
        true
    }

    open spec fn from_spec(value: PhysPageNum) -> Self {
        PhysAddr(((value.0 % PPN_BOUND) * PAGE_BYTES) as u64)
    }
}

impl core::convert::From<PhysAddr> for PhysPageNum {
    /// The page the address falls in.
    fn from(value: PhysAddr) -> Self {
        value.floor()
    }
}

impl vstd::std_specs::convert::FromSpecImpl<PhysAddr> for PhysPageNum {
    open spec fn obeys_from_spec() -> bool {
        true
    }

    open spec fn from_spec(value: PhysAddr) -> Self {
        PhysPageNum((value.0 / PAGE_BYTES) as u64)
    }
}

/// The page an address falls in: floor division by the page size.
pub open spec fn spec_page_floor(a: int) -> int {
    a / (PAGE_BYTES as int)
}

/// The first page at or after an address: ceiling division by the page size.
pub open spec fn spec_page_ceil(a: int) -> int {
    (a + PAGE_BYTES - 1) / (PAGE_BYTES as int)
}

/// The offset of an address within its page.
pub open spec fn spec_page_offset(a: int) -> int {
    a % (PAGE_BYTES as int)
}

/// Ceiling division by the page size, computed without underflow at zero
/// and without overflow at the top of the address space.
fn page_ceil_exec(a: u64) -> (r: u64)
    ensures
        r == spec_page_ceil(a as int),
{
    if a == 0 {
        0
    } else {
        proof {
            lemma_div_plus_one((a - 1) as int, PAGE_BYTES as int);
        }
        (a - 1) / PAGE_BYTES + 1
    }
}

impl VirtAddr {
    /// The page this address falls in.
    pub fn floor(&self) -> (r: VirtPageNum)
        ensures
            r.0 == spec_page_floor(self.0 as int),
    {
        VirtPageNum(self.0 / PAGE_BYTES)
    }

    /// The first page boundary at or after this address.
    pub fn ceil(&self) -> (r: VirtPageNum)
        ensures
            r.0 == spec_page_ceil(self.0 as int),
    {
        VirtPageNum(page_ceil_exec(self.0))
    }

    /// The offset of this address within its page.
    pub fn page_offset(&self) -> (r: u64)
        ensures
            r == spec_page_offset(self.0 as int),
    {
        self.0 % PAGE_BYTES
    }

    /// Whether this address lies on a page boundary.
    pub fn aligned(&self) -> (r: bool)
        ensures
            r == (spec_page_offset(self.0 as int) == 0),
    {
        self.page_offset() == 0
    }
}

impl PhysAddr {
    /// The page this address falls in.
    pub fn floor(&self) -> (r: PhysPageNum)
        ensures
            r.0 == spec_page_floor(self.0 as int),
    {
        PhysPageNum(self.0 / PAGE_BYTES)
    }

    /// The first page boundary at or after this address.
    pub fn ceil(&self) -> (r: PhysPageNum)
        ensures
            r.0 == spec_page_ceil(self.0 as int),
    {
        PhysPageNum(page_ceil_exec(self.0))
    }

    /// The offset of this address within its page.
    pub fn page_offset(&self) -> (r: u64)
        ensures
            r == spec_page_offset(self.0 as int),
    {
        self.0 % PAGE_BYTES
    }

    /// Whether this address lies on a page boundary.
    pub fn aligned(&self) -> (r: bool)
        ensures
            r == (spec_page_offset(self.0 as int) == 0),
    {
        self.page_offset() == 0
    }
}

/// The most-significant 9-bit index of a virtual page number.
pub open spec fn vpn_i0(vpn: int) -> int {
    (vpn / 0x40000) % 512
}

/// The middle 9-bit index of a virtual page number.
pub open spec fn vpn_i1(vpn: int) -> int {
    (vpn / 512) % 512
}

/// The least-significant 9-bit index of a virtual page number.
pub open spec fn vpn_i2(vpn: int) -> int {
    vpn % 512
}

impl VirtPageNum {
    /// The three 9-bit radix indices of this page number, most significant
    /// first, used to walk the three page-table levels.
    pub fn indexes(&self) -> (r: [usize; 3])
        ensures
            r[0] == vpn_i0(self.0 as int),
            r[1] == vpn_i1(self.0 as int),
            r[2] == vpn_i2(self.0 as int),
            r[0] < 512 && r[1] < 512 && r[2] < 512,
    {
        [
            ((self.0 / 0x40000) % 512) as usize,
            ((self.0 / 512) % 512) as usize,
            (self.0 % 512) as usize,
        ]
    }
}

/// Page floor never exceeds page ceiling, and they agree exactly on
/// page-aligned addresses.
pub proof fn lemma_floor_le_ceil(a: int)
    requires
        0 <= a,
    ensures
        spec_page_floor(a) <= spec_page_ceil(a),
        (spec_page_ceil(a) == spec_page_floor(a)) <==> (spec_page_offset(a) == 0),
{
    let p = PAGE_BYTES as int;
    lemma_fundamental_div_mod(a, p);
    lemma_fundamental_div_mod(a + p - 1, p);
    if a % p == 0 {
        assert(spec_page_ceil(a) == spec_page_floor(a)) by (nonlinear_arith)
            requires
                a >= 0 && a % p == 0 && p == 4096,
        ;
    } else {
        assert(spec_page_ceil(a) == spec_page_floor(a) + 1) by (nonlinear_arith)
            requires
                a >= 0 && a % p != 0 && p == 4096,
        ;
    }
}

/// Round trip of a physical page number through a raw word: reducing a
/// page number that is already in range changes nothing.
pub proof fn lemma_ppn_roundtrip(n: u64)
    requires
        n < PPN_BOUND,
    ensures
        <PhysPageNum as vstd::std_specs::convert::FromSpec<u64>>::from_spec(
            <u64 as vstd::std_specs::convert::FromSpec<PhysPageNum>>::from_spec(
                PhysPageNum(n),
            ),
        ) == PhysPageNum(n),
{
    assert((n % PPN_BOUND) == n);
}

/// Types whose values can advance to a successor; the step is one unit of
/// the type's numeric value.
pub trait StepByOne: Sized {
    /// The numeric value of this element.
    spec fn val(&self) -> int;

    /// Advance to the successor.
    fn step(&mut self)
        requires
            old(self).val() < u64::MAX as int,
        ensures
            final(self).val() == old(self).val() + 1,
    ;

    /// Whether two elements hold the same value.
    fn same(&self, other: &Self) -> (r: bool)
        ensures
            r == (self.val() == other.val()),
    ;
}

impl StepByOne for VirtPageNum {
    open spec fn val(&self) -> int {
        self.0 as int
    }

    fn step(&mut self) {
        self.0 = self.0 + 1;
    }

    fn same(&self, other: &Self) -> (r: bool) {
        self.0 == other.0
    }
}

impl StepByOne for PhysPageNum {
    open spec fn val(&self) -> int {
        self.0 as int
    }

    fn step(&mut self) {
        self.0 = self.0 + 1;
    }

    fn same(&self, other: &Self) -> (r: bool) {
        self.0 == other.0
    }
}

/// A half-open range `[start, end)` of steppable elements.
#[derive(Clone, Copy)]
pub struct SimpleRange<T: StepByOne + Copy> {
    l: T,
    r: T,
}

impl<T: StepByOne + Copy> SimpleRange<T> {
    /// The value of the inclusive lower bound.
    pub closed spec fn lo(self) -> int {
        self.l.val()
    }

    /// The value of the exclusive upper bound.
    pub closed spec fn hi(self) -> int {
        self.r.val()
    }

    /// The lower-bound element itself.
    pub closed spec fn start_elem(self) -> T {
        self.l
    }

    /// The upper-bound element itself.
    pub closed spec fn end_elem(self) -> T {
        self.r
    }

    pub fn new(start: T, end: T) -> (s: Self)
        requires
            start.val() <= end.val(),
        ensures
            s.start_elem() == start,
            s.end_elem() == end,
            s.lo() == start.val(),
            s.hi() == end.val(),
    {
        SimpleRange { l: start, r: end }
    }

    pub fn get_start(&self) -> (r: T)
        ensures
            r == self.start_elem(),
            r.val() == self.lo(),
    {
        self.l
    }

    pub fn get_end(&self) -> (r: T)
        ensures
            r == self.end_elem(),
            r.val() == self.hi(),
    {
        self.r
    }
}

/// Walks a [`SimpleRange`] from its start to its end, one step at a time.
pub struct SimpleRangeIterator<T: StepByOne + Copy> {
    current: T,
    end: T,
}

impl<T: StepByOne + Copy> SimpleRangeIterator<T> {
    /// The value the iterator will yield next.
    pub closed spec fn cur(self) -> int {
        self.current.val()
    }

    /// The value the iterator stops at.
    pub closed spec fn stop(self) -> int {
        self.end.val()
    }

    pub fn new(l: T, r: T) -> (it: Self)
        ensures
            it.cur() == l.val(),
            it.stop() == r.val(),
    {
        SimpleRangeIterator { current: l, end: r }
    }

    /// The next element, or nothing once the end value is reached.
    pub fn next(&mut self) -> (r: Option<T>)
        requires
            old(self).cur() <= old(self).stop() <= u64::MAX as int,
        ensures
            final(self).stop() == old(self).stop(),
            match r {
                Some(t) => old(self).cur() < old(self).stop() && t.val() == old(self).cur()
                    && final(self).cur() == old(self).cur() + 1,
                None => old(self).cur() == old(self).stop() && final(self).cur() == old(
                    self,
                ).cur(),
            },
    {
        if self.current.same(&self.end) {
            None
        } else {
            let t = self.current;
            self.current.step();
            Some(t)
        }
    }
}

/// A range of virtual page numbers.
pub type VPNRange = SimpleRange<VirtPageNum>;

/// A range of physical page numbers.
pub type PPNRange = SimpleRange<PhysPageNum>;

} // verus!
