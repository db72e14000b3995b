//! Physical and virtual addresses, and the four hierarchy indices.

use vstd::prelude::*;

verus! {

/// Number of low address bits that select a byte within a page.
pub const PAGE_SHIFT: u64 = 12;

/// The size of one page or frame, in bytes.
pub const PAGE_SIZE: u64 = 4096;

/// Slot selected at the top level (bits 39..=47 of an address).
pub open spec fn spec_pml4_index(a: u64) -> u64 {
    (a >> 39) & 0x1ff
}

/// Slot selected in the upper directory (bits 30..=38 of an address).
pub open spec fn spec_pdpt_index(a: u64) -> u64 {
    (a >> 30) & 0x1ff
}

/// Slot selected in the middle directory (bits 21..=29 of an address).
pub open spec fn spec_pd_index(a: u64) -> u64 {
    (a >> 21) & 0x1ff
}

/// Slot selected in the leaf table (bits 12..=20 of an address).
pub open spec fn spec_pt_index(a: u64) -> u64 {
    (a >> 12) & 0x1ff
}

/// Every hierarchy index is a nine-bit value.
pub proof fn lemma_address_index_bounds(a: u64)
    by (bit_vector)
    ensures
        spec_pml4_index(a) < 512,
        spec_pdpt_index(a) < 512,
        spec_pd_index(a) < 512,
        spec_pt_index(a) < 512,
{
}

/// An address type: a thin wrapper around a machine word.
pub trait Addr: Sized + Copy {
    /// The raw word the address wraps.
    spec fn uval(self) -> u64;

    /// Read the raw word.
    fn to_u64(self) -> (r: u64)
        ensures
            r == self.uval(),
    ;

    /// Wrap a raw word.
    fn from_u64(v: u64) -> (a: Self)
        ensures
            a.uval() == v,
    ;
}

/// A physical (linear) memory address: a 64-bit unsigned integer.
#[derive(Copy, Clone, Debug, PartialEq, Eq, Structural)]
pub struct PAddr(pub u64);

impl Addr for PAddr {
    open spec fn uval(self) -> u64 {
        self.0
    }

    fn to_u64(self) -> u64 {
        self.0
    }

    fn from_u64(v: u64) -> PAddr {
        PAddr(v)
    }
}

impl PAddr {
    /// The wrapped word as a `usize`.
    pub fn as_usize(self) -> (r: usize)
        requires
            self.0 <= usize::MAX,
        ensures
            r == self.0,
    {
        self.0 as usize
    }
}

/// A virtual address: a machine-word-sized unsigned integer.
#[derive(Copy, Clone, Debug, PartialEq, Eq, Structural)]
pub struct VAddr(pub u64);

impl Addr for VAddr {
    open spec fn uval(self) -> u64 {
        self.0
    }

    fn to_u64(self) -> u64 {
        self.0
    }

    fn from_u64(v: u64) -> VAddr {
        VAddr(v)
    }
}

impl VAddr {
    /// Wrap the numeric value of a pointer.
    pub fn from_ptr(ptr: usize) -> (a: Self)
        ensures
            a.uval() == ptr,
    {
        VAddr(ptr as u64)
    }

    /// Wrap a raw word.
    pub fn from_usize(u: usize) -> (a: Self)
        ensures
            a.uval() == u,
    {
        VAddr(u as u64)
    }

    /// Read the raw word as a `usize`.
    pub fn as_usize(self) -> (r: usize)
        requires
            self.0 <= usize::MAX,
        ensures
            r == self.0,
    {
        self.0 as usize
    }

    /// The slot this address routes through in the top-level table.
    pub fn pml4_index(self) -> (r: usize)
        ensures
            r == spec_pml4_index(self.uval()),
            r < 512,
    {
        proof {
            lemma_address_index_bounds(self.0 as u64);
        }
        (((self.0 as u64) >> 39) & 0x1ff) as usize
    }

    /// The slot this address routes through in the upper directory.
    pub fn pdpt_index(self) -> (r: usize)
        ensures
            r == spec_pdpt_index(self.uval()),
            r < 512,
    {
        proof {
            lemma_address_index_bounds(self.0 as u64);
        }
        (((self.0 as u64) >> 30) & 0x1ff) as usize
    }

    /// The slot this address routes through in the middle directory.
    pub fn pd_index(self) -> (r: usize)
        ensures
            r == spec_pd_index(self.uval()),
            r < 512,
    {
        proof {
            lemma_address_index_bounds(self.0 as u64);
        }
        (((self.0 as u64) >> 21) & 0x1ff) as usize
    }

    /// The slot this address routes through in the leaf table.
    pub fn pt_index(self) -> (r: usize)
        ensures
            r == spec_pt_index(self.uval()),
            r < 512,
    {
        proof {
            lemma_address_index_bounds(self.0 as u64);
        }
        (((self.0 as u64) >> 12) & 0x1ff) as usize
    }
}

} // verus!
