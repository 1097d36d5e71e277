//! Build-time architecture constants.
//!
//! Addresses and page numbers are carried in `u64`, the machine word of the
//! 64-bit target this subsystem describes.

use vstd::prelude::*;

verus! {

/// Bytes in one page.
pub const PAGE_SIZE: usize = 0x1000;

/// log2 of the page size.
pub const PAGE_SIZE_BITS: usize = 12;

/// Significant bits of a virtual address.
pub const VA_WIDTH: usize = 39;

/// Significant bits of a physical address.
pub const PA_WIDTH: usize = 54;

/// Significant bits of a virtual page number.
pub const VPN_WIDTH: usize = VA_WIDTH - PAGE_SIZE_BITS;

/// Significant bits of a physical page number.
pub const PPN_WIDTH: usize = PA_WIDTH - PAGE_SIZE_BITS;

/// One past the largest representable virtual address: 2^39.
pub const VA_BOUND: u64 = 0x80_0000_0000;

/// One past the largest representable physical address: 2^54.
pub const PA_BOUND: u64 = 0x40_0000_0000_0000;

/// One past the largest virtual page number: 2^27.
pub const VPN_BOUND: u64 = 0x800_0000;

/// One past the largest physical page number: 2^42.
pub const PPN_BOUND: u64 = 0x400_0000_0000;

/// Width of the root-page-number field of an activation token: 2^44.
pub const SATP_PPN_BOUND: u64 = 0x1000_0000_0000;

/// First address past usable physical memory.
pub const MEMORY_END: u64 = 0x8800_0000;

/// Virtual address of the trampoline page: the highest page of the
/// virtual address space, mapped at the same spot in every address space.
pub const TRAMPOLINE: u64 = u64::MAX - 0xfff;

/// Entries in one page-table node: 2^9.
pub const PTE_PER_PAGE: usize = 512;

} // verus!
