//! The physical frame allocator, seen from the paging core.
//!
//! The allocator itself is an external collaborator; this module states
//! the narrow interface the paging core relies on, and provides a simple
//! free-list implementation of it.

use vstd::prelude::*;
use crate::page::Frame;

verus! {

/// A source of physical frames.
///
/// The paging core only relies on the free-list discipline stated here:
/// `allocate` hands out the most recently listed free frame, and
/// `deallocate` records the frame in a retirement log without reusing
/// it for a later `allocate`. The available and retired frames are
/// visible to specifications through `avail` and `freed`.
pub trait FrameAllocator: Sized {
    /// The numbers of the frames still available, in the order they
    /// would be handed out (last first).
    spec fn avail(&self) -> Seq<u64>;

    /// The numbers of the frames returned so far, in order.
    spec fn freed(&self) -> Seq<u64>;

    /// Hand out one frame, or report exhaustion.
    fn allocate(&mut self) -> (r: Option<Frame>)
        ensures
            final(self).freed() == old(self).freed(),
            old(self).avail().len() > 0 ==> {
                &&& r is Some
                &&& r.unwrap().number == old(self).avail().last()
                &&& final(self).avail() == old(self).avail().drop_last()
            },
            old(self).avail().len() == 0 ==> r is None && final(self).avail() == old(
                self,
            ).avail(),
    ;

    /// Take back a frame that is no longer mapped.
    fn deallocate(&mut self, frame: Frame)
        ensures
            final(self).avail() == old(self).avail(),
            final(self).freed() == old(self).freed().push(frame.number),
    ;
}

/// A frame allocator backed by an explicit list of free frames.
pub struct FreeListAllocator {
    free: Vec<u64>,
    retired: Vec<u64>,
}

impl FreeListAllocator {
    /// An allocator that will hand out the given frame numbers,
    /// last first.
    pub fn new(free: Vec<u64>) -> (r: FreeListAllocator)
        ensures
            r.avail() == free@,
            r.freed() == Seq::<u64>::empty(),
    {
        let r = FreeListAllocator { free, retired: Vec::new() };
        proof {
            assert(r.freed() =~= Seq::<u64>::empty());
        }
        r
    }

    /// How many frames are still available.
    pub fn remaining(&self) -> (n: usize)
        ensures
            n == self.avail().len(),
    {
        self.free.len()
    }

    /// The frame numbers returned through `deallocate` so far, in order.
    pub fn retired_frames(&self) -> (r: &Vec<u64>)
        ensures
            r@ == self.freed(),
    {
        &self.retired
    }
}

impl FrameAllocator for FreeListAllocator {
    closed spec fn avail(&self) -> Seq<u64> {
        self.free@
    }

    closed spec fn freed(&self) -> Seq<u64> {
        self.retired@
    }

    fn allocate(&mut self) -> (r: Option<Frame>) {
        let n = self.free.len();
        if n == 0 {
            None
        } else {
            let number = self.free.pop().unwrap();
            Some(Frame { number })
        }
    }

    fn deallocate(&mut self, frame: Frame) {
        self.retired.push(frame.number);
    }
}

/// The frames an allocator may hand out are usable as fresh page-table
/// storage: all distinct, none the zero frame, none too large for an
/// entry, and none colliding with the given set of frames already in
/// use.
pub open spec fn frames_fresh(avail: Seq<u64>, used: Set<u64>) -> bool {
    &&& forall|i: int|
        0 <= i < avail.len() ==> 0 < #[trigger] avail[i] < crate::entry::FRAME_LIMIT && !used.contains(
            avail[i],
        )
    &&& forall|i: int, j: int| 0 <= i < j < avail.len() ==> avail[i] != avail[j]
}

/// Freshness survives handing frames out and growing the used set with
/// the frame just handed out.
pub proof fn lemma_fresh_after_allocate(avail: Seq<u64>, used: Set<u64>)
    requires
        frames_fresh(avail, used),
        avail.len() > 0,
    ensures
        frames_fresh(avail.drop_last(), used.insert(avail.last())),
{
    assert forall|i: int| 0 <= i < avail.drop_last().len() implies 0 < #[trigger] avail.drop_last()[i]
        < crate::entry::FRAME_LIMIT && !used.insert(avail.last()).contains(
        avail.drop_last()[i],
    ) by {
        assert(avail.drop_last()[i] == avail[i]);
        assert(avail[i] != avail[avail.len() - 1]);
    }
}

} // verus!
