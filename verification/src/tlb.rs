//! The translation-lookaside-buffer flush interface, as the paging
//! core consumes it.
//!
//! The model keeps a count of the invalidations it was asked for; the
//! mapping operations state exactly when one is required: after any
//! unmap, and after any change to the recursive self-reference.

use vstd::prelude::*;
use crate::page::VirtualPage;

verus! {

/// The lookaside-buffer interface: per-page invalidation and whole
/// address-space invalidation.
pub struct Tlb {
    page_flushes: u64,
    full_flushes: u64,
}

impl Tlb {
    /// How many single-page invalidations were issued.
    pub closed spec fn page_count(self) -> u64 {
        self.page_flushes
    }

    /// How many whole-address-space invalidations were issued.
    pub closed spec fn full_count(self) -> u64 {
        self.full_flushes
    }

    /// A lookaside buffer with no invalidation issued yet.
    pub fn new() -> (t: Tlb)
        ensures
            t.page_count() == 0,
            t.full_count() == 0,
    {
        Tlb { page_flushes: 0, full_flushes: 0 }
    }

    /// Invalidate the cached translation of one page.
    pub fn flush(&mut self, page: VirtualPage)
        ensures
            final(self).page_count() == if old(self).page_count() < u64::MAX {
                old(self).page_count() + 1
            } else {
                0
            },
            final(self).full_count() == old(self).full_count(),
    {
        if self.page_flushes == u64::MAX {
            self.page_flushes = 0;
        } else {
            self.page_flushes = self.page_flushes + 1;
        }
    }

    /// Invalidate every cached translation of the current address
    /// space.
    pub fn flush_all(&mut self)
        ensures
            final(self).full_count() == if old(self).full_count() < u64::MAX {
                old(self).full_count() + 1
            } else {
                0
            },
            final(self).page_count() == old(self).page_count(),
    {
        if self.full_flushes == u64::MAX {
            self.full_flushes = 0;
        } else {
            self.full_flushes = self.full_flushes + 1;
        }
    }
}

} // verus!
