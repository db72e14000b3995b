//! Page-aligned units of address space: virtual pages and physical frames.

use vstd::prelude::*;
use crate::addr::{Addr, PAddr, VAddr, PAGE_SIZE};

verus! {

/// A page-aligned unit of address space, identified by a page number
/// (address divided by the page size). Virtual pages and physical
/// frames share this interface.
pub trait Page: Sized + Copy {
    /// The kind of address that falls within this kind of page.
    type Address: Addr;

    /// The page number.
    spec fn num(self) -> u64;

    /// Read the page number.
    fn number(self) -> (n: u64)
        ensures
            n == self.num(),
    ;

    /// The page with the given number.
    fn from_number(n: u64) -> (p: Self)
        ensures
            p.num() == n,
    ;

    /// The page containing the given address.
    fn containing(addr: Self::Address) -> (p: Self)
        ensures
            p.num() == addr.uval() / PAGE_SIZE,
    ;

    /// The base address where this page starts.
    fn base(self) -> (a: Self::Address)
        requires
            self.num() * PAGE_SIZE <= u64::MAX,
        ensures
            a.uval() == self.num() * PAGE_SIZE,
    ;

}

/// A physical page.
#[derive(Copy, Clone, Debug, PartialEq, Eq, Structural)]
pub struct Frame {
    /// The frame number: base address divided by the page size.
    pub number: u64,
}

impl Frame {
    /// The physical address where this frame starts.
    pub fn base_addr(&self) -> (a: PAddr)
        requires
            self.number * PAGE_SIZE <= u64::MAX,
        ensures
            a.uval() == self.number * PAGE_SIZE,
    {
        PAddr(self.number * PAGE_SIZE)
    }

    /// The frame containing `addr`.
    pub fn containing(addr: PAddr) -> (f: Frame)
        ensures
            f.number == addr.uval() / PAGE_SIZE,
    {
        Frame { number: addr.0 / PAGE_SIZE }
    }
}

impl Page for Frame {
    type Address = PAddr;

    open spec fn num(self) -> u64 {
        self.number
    }

    fn number(self) -> u64 {
        self.number
    }

    fn from_number(n: u64) -> Frame {
        Frame { number: n }
    }

    fn containing(addr: PAddr) -> Frame {
        Frame { number: addr.0 / PAGE_SIZE }
    }

    fn base(self) -> PAddr {
        PAddr(self.number * PAGE_SIZE)
    }
}

/// A virtual page.
#[derive(Copy, Clone, Debug, PartialEq, Eq, Structural)]
pub struct VirtualPage {
    /// The page number: base address divided by the page size.
    pub number: u64,
}

impl Page for VirtualPage {
    type Address = VAddr;

    open spec fn num(self) -> u64 {
        self.number
    }

    fn number(self) -> u64 {
        self.number
    }

    fn from_number(n: u64) -> VirtualPage {
        VirtualPage { number: n }
    }

    fn containing(addr: VAddr) -> VirtualPage {
        VirtualPage { number: addr.0 / PAGE_SIZE }
    }

    fn base(self) -> VAddr {
        VAddr(self.number * PAGE_SIZE)
    }
}

/// A half-open range of pages: `start` inclusive up to `end` exclusive.
#[derive(Copy, Clone, Debug, PartialEq, Eq)]
pub struct PageRange<P: Page> {
    start: P,
    end: P,
}

impl<P: Page> PageRange<P> {
    /// The first page number of the range.
    pub closed spec fn first(self) -> u64 {
        self.start.num()
    }

    /// The page number just past the range.
    pub closed spec fn bound(self) -> u64 {
        self.end.num()
    }

    /// The half-open range of pages from `start` up to `end`.
    pub fn range_between(start: P, end: P) -> (r: PageRange<P>)
        requires
            start.num() <= end.num(),
        ensures
            r.first() == start.num(),
            r.bound() == end.num(),
    {
        PageRange { start, end }
    }

    /// The half-open range of pages from `start` until just before `end`.
    pub fn range_until(start: P, end: P) -> (r: PageRange<P>)
        requires
            start.num() <= end.num(),
        ensures
            r.first() == start.num(),
            r.bound() == end.num(),
    {
        PageRange { start, end }
    }

    /// A forward iterator over this range. The range itself is copyable,
    /// so iteration can be restarted from a fresh iterator at any time.
    pub fn iter(&self) -> (it: PageRangeIter<P>)
        requires
            self.first() <= self.bound(),
        ensures
            it.cur() == self.first(),
            it.bound() == self.bound(),
            it.wf(),
    {
        PageRangeIter { current: self.start, end: self.end }
    }
}

/// A single-pass iterator over a range of pages.
pub struct PageRangeIter<P: Page> {
    current: P,
    end: P,
}

impl<P: Page> PageRangeIter<P> {
    /// The number of the page the iterator will yield next.
    pub closed spec fn cur(self) -> u64 {
        self.current.num()
    }

    /// The page number just past the range being walked.
    pub closed spec fn bound(self) -> u64 {
        self.end.num()
    }

    /// The iterator has not run past its range.
    pub closed spec fn wf(self) -> bool {
        self.cur() <= self.bound()
    }

    /// Yield the next page of the range, advancing, or nothing when the
    /// range is exhausted.
    pub fn next(&mut self) -> (r: Option<P>)
        requires
            old(self).wf(),
        ensures
            final(self).wf(),
            final(self).bound() == old(self).bound(),
            old(self).cur() < old(self).bound() ==> {
                &&& r is Some
                &&& r.unwrap().num() == old(self).cur()
                &&& final(self).cur() == old(self).cur() + 1
            },
            old(self).cur() == old(self).bound() ==> r is None && final(self).cur() == old(
                self,
            ).cur(),
    {
        let cur_n = self.current.number();
        let end_n = self.end.number();
        if cur_n < end_n {
            let page = self.current;
            self.current = P::from_number(cur_n + 1);
            Some(page)
        } else {
            None
        }
    }
}

} // verus!
