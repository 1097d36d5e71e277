//! Virtual-memory subsystem for a 64-bit RISC supervisor kernel with a
//! three-level paged MMU (39-bit virtual address space).
//!
//! The crate is organised bottom-up:
//! - [`config`]: the architecture constants (page size, address widths).
//! - [`address`]: typed virtual/physical addresses and page numbers.
//! - [`frame_allocator`]: the arena of physical frames and the stack-style
//!   frame allocator with recycling.
//! - [`page_table`]: page-table entries and the three-level radix tree.
//! - [`memory_set`]: mapping areas and whole address spaces.
//!
//! Physical memory is modelled by an explicit arena ([`frame_allocator::PhysMem`])
//! that converts a physical page number into a bounds-checked view of the
//! frame's contents; every page-table walk and every byte copy goes through
//! that one capability object.

pub mod address;
pub mod config;
pub mod frame_allocator;
pub mod memory_set;
pub mod page_table;
