//! Four-level page-table core for a 64-bit kernel.
//!
//! The top-level table (PML4) is followed by the page-directory-pointer
//! table (PDPT), the page directory (PD) and the leaf page table (PT).
//! The crate models the machine state that the real hardware would hold --
//! the table frames, the base-table register and the lookaside buffer --
//! as plain data, and verifies the mapping operations against a
//! specification-level translation walk.

pub mod active;
pub mod addr;
pub mod entry;
pub mod frame_alloc;
pub mod mapper;
pub mod model;
pub mod page;
pub mod remap;
pub mod table;
pub mod tlb;
