//! The active/inactive table duality, the temporary page, and table
//! switching.
//!
//! The active table is the hierarchy the register routes through; an
//! inactive table is identified solely by the frame holding its top
//! level and is edited only indirectly: the active table's recursive
//! slot is temporarily repointed at it, while a temporary page keeps
//! the old top-level table reachable.

use vstd::prelude::*;
use crate::entry::{
    entry_present, entry_frame, EntryFlags, PRESENT, WRITABLE, FLAGS_LIMIT, FRAME_LIMIT,
};
use crate::frame_alloc::{FrameAllocator, frames_fresh};
use crate::mapper::{ActivePML4, MapErr, MapResult};
use crate::model::{
    MachineModel, user_page, ent, eff_root, l1e, resolve_at, resolve, leaf_mapped_at, map_plan,
    is_table, is_l4, wf,
};
use crate::page::{Frame, VirtualPage};

verus! {

/// The page table currently installed in the processor's base-table
/// register, together with the machine state it stands on. There is
/// one meaningful instance per modeled processor.
pub struct ActivePageTable {
    pml4: ActivePML4,
}

impl View for ActivePageTable {
    type V = MachineModel;

    closed spec fn view(&self) -> MachineModel {
        self.pml4@
    }
}

/// An inactive page table the processor is not using, identified by
/// the physical frame holding its top-level table.
pub struct InactivePageTable {
    pml4_frame: Frame,
}

impl InactivePageTable {
    /// The number of the frame holding the top-level table.
    pub closed spec fn frame_num(self) -> u64 {
        self.pml4_frame.number
    }

    /// The frame holding the top-level table.
    pub fn frame(&self) -> (f: Frame)
        ensures
            f.number == self.frame_num(),
    {
        self.pml4_frame
    }

    /// Turn the freshly allocated frame `frame` into an inactive page
    /// table: bind the temporary page to it, zero it, write its own
    /// recursive self-reference into its slot 511, and unbind the
    /// temporary page. The new table maps nothing. No existing
    /// translation changes.
    pub fn new<A: FrameAllocator>(
        frame: Frame,
        active_table: &mut ActivePageTable,
        temp: &mut TempPage,
        alloc: &mut A,
    ) -> (r: MapResult<Self>)
        requires
            wf(old(active_table)@),
            0 < frame.number < FRAME_LIMIT,
            !is_table(old(active_table)@, frame.number),
            old(temp).bound_to() is None,
            user_page(old(temp).page_num()),
            resolve(old(active_table)@, old(temp).page_num()) is None,
            frames_fresh(alloc.avail(), old(active_table)@.store.dom()),
            forall|i: int| 0 <= i < alloc.avail().len() ==> #[trigger] alloc.avail()[i]
                != frame.number,
        ensures
            wf(final(active_table)@),
            final(active_table)@.cr3 == old(active_table)@.cr3,
            eff_root(final(active_table)@) == eff_root(old(active_table)@),
            final(alloc).freed() == old(alloc).freed(),
            frames_fresh(final(alloc).avail(), final(active_table)@.store.dom()),
            final(temp).page_num() == old(temp).page_num(),
            forall|g: u64|
                #[trigger] is_table(old(active_table)@, g) ==> is_table(final(active_table)@, g)
                    && final(active_table)@.lvl[g] == old(active_table)@.lvl[g],
            forall|rr: u64, q: u64|
                is_l4(old(active_table)@, rr) && user_page(q) ==> #[trigger] resolve_at(
                    final(active_table)@,
                    rr,
                    q,
                ) == resolve_at(old(active_table)@, rr, q),
            r is Ok ==> {
                &&& r.unwrap().frame_num() == frame.number
                &&& is_l4(final(active_table)@, frame.number)
                &&& entry_present(ent(final(active_table)@, frame.number, 511))
                &&& entry_frame(ent(final(active_table)@, frame.number, 511)) == frame.number
                &&& forall|q: u64|
                    user_page(q) ==> #[trigger] resolve_at(
                        final(active_table)@,
                        frame.number,
                        q,
                    ) is None
                &&& final(active_table)@.store[frame.number] == crate::table::zero_table().update(
                    511,
                    crate::entry::entry_encode(frame.number, PRESENT | WRITABLE),
                )
                &&& final(temp).bound_to() is None
            },
            r is Err ==> r == MapResult::<Self>::Err(
                MapErr::AllocationFailed { page: VirtualPage { number: old(temp).page_num() } },
            ) && final(alloc).avail().len() == 0 && final(temp).bound_to() is None,
            map_plan(old(active_table)@, eff_root(old(active_table)@), old(temp).page_num())
                <= old(alloc).avail().len() ==> r is Ok,
            r is Ok ==> final(alloc).avail().len() >= old(alloc).avail().len() - 3,
    {
        let ghost m0 = active_table@;
        match temp.bind(frame, active_table, alloc) {
            Ok(()) => {},
            Err(e) => {
                proof {
                    assert(map_plan(m0, eff_root(m0), temp.page_num()) >= 0);
                }
                return Err(e);
            },
        }
        let ghost m1 = active_table@;
        proof {
            if is_table(m1, frame.number) {
                assert(alloc.avail().len() >= 0);
                if old(alloc).avail().contains(frame.number) {
                    let i = choose|i: int|
                        0 <= i < old(alloc).avail().len() && old(alloc).avail()[i] == frame.number;
                    assert(old(alloc).avail()[i] == frame.number);
                }
                assert(false);
            }
        }
        active_table.pml4.install_root_table(frame);
        let ghost m2 = active_table@;
        proof {
            let ghost e0 = eff_root(m0);
            assert(is_l4(m1, e0));
            assert(resolve_at(m2, e0, temp.page_num()) == resolve_at(m1, e0, temp.page_num()));
            assert(leaf_mapped_at(m2, e0, temp.page_num()) == leaf_mapped_at(
                m1,
                e0,
                temp.page_num(),
            ));
            assert(map_plan(m2, eff_root(m2), temp.page_num()) == -1);
            assert forall|i: int|
                0 <= i < alloc.avail().len() implies 0 < #[trigger] alloc.avail()[i]
                < FRAME_LIMIT && !m2.store.dom().contains(alloc.avail()[i]) by {
                assert(alloc.avail()[i] == old(alloc).avail()[i]);
                assert(!m1.store.dom().contains(alloc.avail()[i]));
                assert(alloc.avail()[i] != frame.number);
            }
        }
        let cleared = temp.unbind(active_table);
        proof {
            let m3 = active_table@;
            assert(m2.lvl[frame.number] == 4);
            assert(ent(m3, frame.number, 511) == ent(m2, frame.number, 511));
            assert forall|j: int| 0 <= j < 512 implies m3.store[frame.number][j]
                == m2.store[frame.number][j] by {
                assert(ent(m3, frame.number, j as u64) == ent(m2, frame.number, j as u64));
            }
            assert(m3.store[frame.number].len() == 512 && m2.store[frame.number].len() == 512);
            assert(m3.store[frame.number] =~= m2.store[frame.number]);
            assert forall|rr: u64, q: u64|
                is_l4(m0, rr) && user_page(q) implies #[trigger] resolve_at(m3, rr, q)
                == resolve_at(m0, rr, q) by {
                assert(is_l4(m1, rr) == is_l4(m0, rr));
                assert(is_l4(m2, rr) == is_l4(m1, rr));
                if rr == eff_root(m0) && q == temp.page_num() {
                    assert(resolve_at(m3, rr, q) is None);
                    assert(resolve_at(m0, rr, q) is None);
                } else {
                    assert(resolve_at(m1, rr, q) == resolve_at(m0, rr, q));
                    assert(resolve_at(m2, rr, q) == resolve_at(m1, rr, q));
                    assert(resolve_at(m3, rr, q) == resolve_at(m2, rr, q));
                }
            }
            assert forall|q: u64|
                user_page(q) implies #[trigger] resolve_at(active_table@, frame.number, q)
                is None by {
                assert(resolve_at(m2, frame.number, q) is None);
                if !(eff_root(m2) == eff_root(m0) && q == temp.page_num()) {
                    assert(resolve_at(active_table@, frame.number, q) == resolve_at(
                        m2,
                        frame.number,
                        q,
                    ));
                } else {
                    assert(frame.number != eff_root(m0));
                }
            }
        }
        Ok(InactivePageTable { pml4_frame: frame })
    }
}

impl ActivePageTable {
    /// How many single-page lookaside invalidations were issued.
    pub closed spec fn page_flushes(self) -> u64 {
        self.pml4.page_flushes()
    }

    /// How many whole-address-space lookaside invalidations were
    /// issued.
    pub closed spec fn full_flushes(self) -> u64 {
        self.pml4.full_flushes()
    }

    /// The active table of a machine whose only table is a fresh
    /// top-level table in `root`, holding its recursive
    /// self-reference, with the register pointing at it.
    pub fn new(root: Frame) -> (s: Self)
        requires
            0 < root.number < FRAME_LIMIT,
        ensures
            wf(s@),
            s@.cr3 == root.number,
            eff_root(s@) == root.number,
            is_l4(s@, root.number),
            s@.store.dom() == Set::<u64>::empty().insert(root.number),
            forall|q: u64| user_page(q) ==> #[trigger] resolve(s@, q) is None,
    {
        ActivePageTable { pml4: ActivePML4::new(root) }
    }

    /// The mapper view of the active hierarchy, for read-side
    /// operations.
    pub fn pml4(&self) -> (r: &ActivePML4)
        ensures
            r@ == self@,
    {
        &self.pml4
    }

    /// The mapper view of the active hierarchy, for mapping
    /// operations.
    pub fn pml4_mut(&mut self) -> (r: &mut ActivePML4)
        ensures
            r@ == old(self)@,
            final(self)@ == final(r)@,
    {
        &mut self.pml4
    }

    /// Run the window over the given inactive table: bind the
    /// temporary page to the current top-level frame (so the old
    /// table stays reachable), repoint the active table's recursive
    /// slot at the inactive table, and invalidate every cached
    /// translation. Until `stop_using`, every mapping operation works
    /// on the inactive hierarchy, while the register is untouched.
    #[verifier::rlimit(100)]
    pub fn start_using<A: FrameAllocator>(
        &mut self,
        table: &InactivePageTable,
        temp: &mut TempPage,
        alloc: &mut A,
    ) -> (r: MapResult<()>)
        requires
            wf(old(self)@),
            eff_root(old(self)@) == old(self)@.cr3,
            is_l4(old(self)@, table.frame_num()),
            entry_frame(ent(old(self)@, table.frame_num(), 511)) == table.frame_num(),
            table.frame_num() != old(self)@.cr3,
            old(temp).bound_to() is None,
            user_page(old(temp).page_num()),
            resolve(old(self)@, old(temp).page_num()) is None,
            frames_fresh(alloc.avail(), old(self)@.store.dom()),
        ensures
            wf(final(self)@),
            final(self)@.cr3 == old(self)@.cr3,
            final(alloc).freed() == old(alloc).freed(),
            frames_fresh(final(alloc).avail(), final(self)@.store.dom()),
            final(temp).page_num() == old(temp).page_num(),
            final(self).page_flushes() == old(self).page_flushes(),
            r is Ok ==> final(self).full_flushes() == (if old(self).full_flushes() < u64::MAX {
                old(self).full_flushes() + 1
            } else {
                0
            }),
            r is Err ==> final(self).full_flushes() == old(self).full_flushes(),
            forall|g: u64|
                #[trigger] is_table(old(self)@, g) ==> is_table(final(self)@, g)
                    && final(self)@.lvl[g] == old(self)@.lvl[g],
            forall|g: u64| #[trigger] is_l4(final(self)@, g) == is_l4(old(self)@, g),
            forall|rr: u64, q: u64|
                is_l4(old(self)@, rr) && user_page(q) && !(rr == old(self)@.cr3 && q == old(
                    temp,
                ).page_num()) ==> #[trigger] resolve_at(final(self)@, rr, q) == resolve_at(
                    old(self)@,
                    rr,
                    q,
                ) && leaf_mapped_at(final(self)@, rr, q) == leaf_mapped_at(old(self)@, rr, q),
            r is Ok ==> {
                &&& eff_root(final(self)@) == table.frame_num()
                &&& final(temp).bound_to() == Some(Frame { number: old(self)@.cr3 })
                &&& leaf_mapped_at(final(self)@, final(self)@.cr3, old(temp).page_num())
                &&& entry_frame(
                    l1e(final(self)@, final(self)@.cr3, old(temp).page_num()),
                ) == old(self)@.cr3
            },
            r is Err ==> r == MapResult::<()>::Err(
                MapErr::AllocationFailed { page: VirtualPage { number: old(temp).page_num() } },
            ) && eff_root(final(self)@) == old(self)@.cr3 && final(temp).bound_to() is None
                && resolve(final(self)@, old(temp).page_num()) is None,
            map_plan(old(self)@, old(self)@.cr3, old(temp).page_num()) <= old(
                alloc,
            ).avail().len() ==> r is Ok,
            r is Ok ==> final(alloc).avail().len() >= old(alloc).avail().len() - 3,
    {
        let ghost m0 = self@;
        let cur = self.pml4.root_register();
        match temp.bind(Frame { number: cur }, self, alloc) {
            Ok(()) => {},
            Err(e) => {
                return Err(e);
            },
        }
        let ghost m1 = self@;
        proof {
            assert(is_l4(m1, table.frame_num()));
            assert(ent(m1, table.frame_num(), 511) == ent(m0, table.frame_num(), 511));
        }
        self.pml4.redirect_window(table.frame());
        proof {
            let m2 = self@;
            let pn0 = temp.page_num();
            assert(resolve_at(m2, m0.cr3, pn0) == resolve_at(m1, m0.cr3, pn0));
            assert(leaf_mapped_at(m2, m0.cr3, pn0));
            assert(entry_frame(l1e(m2, m0.cr3, pn0)) == m0.cr3);
            assert forall|rr: u64, q: u64|
                is_l4(m0, rr) && user_page(q) && !(rr == m0.cr3 && q == pn0) implies
                #[trigger] resolve_at(m2, rr, q) == resolve_at(m0, rr, q) && leaf_mapped_at(
                m2,
                rr,
                q,
            ) == leaf_mapped_at(m0, rr, q) by {
                assert(is_l4(m1, rr) == is_l4(m0, rr));
                assert(resolve_at(m1, rr, q) == resolve_at(m0, rr, q) && leaf_mapped_at(m1, rr, q)
                    == leaf_mapped_at(m0, rr, q));
                assert(resolve_at(m2, rr, q) == resolve_at(m1, rr, q) && leaf_mapped_at(m2, rr, q)
                    == leaf_mapped_at(m1, rr, q));
            }
            assert forall|g: u64| #[trigger] is_table(m0, g) implies is_table(m2, g)
                && m2.lvl[g] == m0.lvl[g] by {
                assert(is_table(m1, g) && m1.lvl[g] == m0.lvl[g]);
            }
            assert forall|g: u64| #[trigger] is_l4(m2, g) == is_l4(m0, g) by {
                assert(is_l4(m1, g) == is_l4(m0, g));
            }
        }
        Ok(())
    }

    /// Leave the window over an inactive table: restore the active
    /// table's recursive slot to reference its own frame, invalidate
    /// every cached translation, and unbind the temporary page. The
    /// self-reference afterwards points at the active table's own
    /// frame, exactly as before the window was opened, whatever
    /// happened in between.
    pub fn stop_using(&mut self, temp: &mut TempPage) -> (f: Frame)
        requires
            wf(old(self)@),
            old(temp).bound_to() is Some,
            old(temp).bound_to().unwrap().number == old(self)@.cr3,
            user_page(old(temp).page_num()),
            leaf_mapped_at(old(self)@, old(self)@.cr3, old(temp).page_num()),
            entry_frame(l1e(old(self)@, old(self)@.cr3, old(temp).page_num())) == old(self)@.cr3,
        ensures
            wf(final(self)@),
            final(self)@.cr3 == old(self)@.cr3,
            eff_root(final(self)@) == final(self)@.cr3,
            entry_present(ent(final(self)@, final(self)@.cr3, 511)),
            entry_frame(ent(final(self)@, final(self)@.cr3, 511)) == final(self)@.cr3,
            f.number == old(self)@.cr3,
            final(temp).bound_to() is None,
            final(temp).page_num() == old(temp).page_num(),
            final(self).full_flushes() == (if old(self).full_flushes() < u64::MAX {
                old(self).full_flushes() + 1
            } else {
                0
            }),
            final(self).page_flushes() == (if old(self).page_flushes() < u64::MAX {
                old(self).page_flushes() + 1
            } else {
                0
            }),
            final(self)@.store.dom() == old(self)@.store.dom(),
            final(self)@.lvl == old(self)@.lvl,
            forall|g: u64, j: u64|
                is_table(old(self)@, g) && j < 512 && old(self)@.lvl[g] != 1 && !(g == old(
                    self,
                )@.cr3 && j == 511) ==> ent(final(self)@, g, j) == #[trigger] ent(
                    old(self)@,
                    g,
                    j,
                ),
            forall|rr: u64, q: u64|
                is_l4(old(self)@, rr) && user_page(q) && !(rr == old(self)@.cr3 && q == old(
                    temp,
                ).page_num()) ==> #[trigger] resolve_at(final(self)@, rr, q) == resolve_at(
                    old(self)@,
                    rr,
                    q,
                ) && leaf_mapped_at(final(self)@, rr, q) == leaf_mapped_at(old(self)@, rr, q),
            resolve_at(final(self)@, final(self)@.cr3, old(temp).page_num()) is None,
    {
        let ghost m0 = self@;
        let cur = self.pml4.root_register();
        self.pml4.redirect_window(Frame { number: cur });
        let ghost m1 = self@;
        proof {
            assert(resolve_at(m1, m0.cr3, temp.page_num()) == resolve_at(
                m0,
                m0.cr3,
                temp.page_num(),
            ));
            assert(leaf_mapped_at(m1, m0.cr3, temp.page_num()));
            assert(eff_root(m1) == m0.cr3);
            assert(map_plan(m1, eff_root(m1), temp.page_num()) == -1);
            assert(entry_frame(l1e(m1, m0.cr3, temp.page_num())) == m0.cr3);
        }
        let f = temp.unbind(self);
        proof {
            let m2 = self@;
            assert(ent(m2, m0.cr3, 511) == ent(m1, m0.cr3, 511));
            assert(eff_root(m2) == m0.cr3);
        }
        f
    }

    /// Install the given inactive table in the base-table register --
    /// the only operation that changes what the processor translates
    /// through -- and hand back the previously installed table as an
    /// inactive one.
    pub fn replace_with(&mut self, new_table: InactivePageTable) -> (old_table:
        InactivePageTable)
        requires
            wf(old(self)@),
            is_l4(old(self)@, new_table.frame_num()),
            entry_frame(ent(old(self)@, new_table.frame_num(), 511)) == new_table.frame_num(),
        ensures
            wf(final(self)@),
            final(self)@.cr3 == new_table.frame_num(),
            eff_root(final(self)@) == new_table.frame_num(),
            old_table.frame_num() == old(self)@.cr3,
            final(self)@.store == old(self)@.store,
            final(self)@.lvl == old(self)@.lvl,
            forall|rr: u64, q: u64|
                #[trigger] resolve_at(final(self)@, rr, q) == resolve_at(old(self)@, rr, q)
                    && leaf_mapped_at(final(self)@, rr, q) == leaf_mapped_at(old(self)@, rr, q),
            forall|q: u64|
                #[trigger] resolve(final(self)@, q) == resolve_at(
                    old(self)@,
                    new_table.frame_num(),
                    q,
                ),
    {
        let old_frame = self.pml4.root_register();
        self.pml4.set_root_register(new_table.frame());
        InactivePageTable { pml4_frame: Frame { number: old_frame } }
    }
}

/// A single reserved scratch virtual page, together with the frame it
/// is currently bound to. Binding it makes an otherwise unreachable
/// table frame addressable from the active address space.
pub struct TempPage {
    page: VirtualPage,
    bound: Option<Frame>,
}

impl TempPage {
    /// The number of the reserved page.
    pub closed spec fn page_num(self) -> u64 {
        self.page.number
    }

    /// The frame the page is currently bound to, if any.
    pub closed spec fn bound_to(self) -> Option<Frame> {
        self.bound
    }

    /// A temporary page at the given page number, unbound. The number
    /// is fixed at creation and chosen by the caller to avoid
    /// collision with other mappings.
    pub fn new(number: u64) -> (t: TempPage)
        ensures
            t.page_num() == number,
            t.bound_to() is None,
    {
        TempPage { page: VirtualPage { number }, bound: None }
    }

    /// The reserved page.
    pub fn page(&self) -> (p: VirtualPage)
        ensures
            p.number == self.page_num(),
    {
        self.page
    }

    /// Bind the temporary page to `frame`: map it writable in the
    /// hierarchy the window currently routes through.
    pub fn bind<A: FrameAllocator>(
        &mut self,
        frame: Frame,
        active_table: &mut ActivePageTable,
        alloc: &mut A,
    ) -> (r: MapResult<()>)
        requires
            wf(old(active_table)@),
            0 < frame.number < FRAME_LIMIT,
            old(self).bound_to() is None,
            user_page(old(self).page_num()),
            resolve(old(active_table)@, old(self).page_num()) is None,
            frames_fresh(alloc.avail(), old(active_table)@.store.dom()),
        ensures
            wf(final(active_table)@),
            final(active_table)@.cr3 == old(active_table)@.cr3,
            eff_root(final(active_table)@) == eff_root(old(active_table)@),
            final(alloc).freed() == old(alloc).freed(),
            frames_fresh(final(alloc).avail(), final(active_table)@.store.dom()),
            final(self).page_num() == old(self).page_num(),
            final(active_table).page_flushes() == old(active_table).page_flushes(),
            final(active_table).full_flushes() == old(active_table).full_flushes(),
            forall|g: u64|
                #[trigger] is_table(old(active_table)@, g) ==> is_table(final(active_table)@, g)
                    && final(active_table)@.lvl[g] == old(active_table)@.lvl[g],
            forall|g: u64|
                #[trigger] is_l4(final(active_table)@, g) == is_l4(old(active_table)@, g),
            forall|g: u64|
                #[trigger] is_table(final(active_table)@, g) ==> is_table(old(active_table)@, g)
                    || old(alloc).avail().contains(g),
            final(alloc).avail().len() <= old(alloc).avail().len(),
            forall|i: int|
                0 <= i < final(alloc).avail().len() ==> #[trigger] final(alloc).avail()[i] == old(
                    alloc,
                ).avail()[i],
            forall|g: u64|
                #[trigger] is_l4(old(active_table)@, g) ==> ent(final(active_table)@, g, 511)
                    == ent(old(active_table)@, g, 511),
            forall|rr: u64, q: u64|
                is_l4(old(active_table)@, rr) && user_page(q) && !(rr == eff_root(
                    old(active_table)@,
                ) && q == old(self).page_num()) ==> #[trigger] resolve_at(
                    final(active_table)@,
                    rr,
                    q,
                ) == resolve_at(old(active_table)@, rr, q) && leaf_mapped_at(
                    final(active_table)@,
                    rr,
                    q,
                ) == leaf_mapped_at(old(active_table)@, rr, q),
            r is Ok ==> {
                &&& final(self).bound_to() == Some(frame)
                &&& leaf_mapped_at(
                    final(active_table)@,
                    eff_root(old(active_table)@),
                    old(self).page_num(),
                )
                &&& resolve(final(active_table)@, old(self).page_num()) == Some(
                    (frame.number, PRESENT | WRITABLE),
                )
                &&& map_plan(
                    final(active_table)@,
                    eff_root(final(active_table)@),
                    old(self).page_num(),
                ) == -1
                &&& entry_frame(
                    l1e(
                        final(active_table)@,
                        eff_root(final(active_table)@),
                        old(self).page_num(),
                    ),
                ) == frame.number
            },
            r is Err ==> r == MapResult::<()>::Err(
                MapErr::AllocationFailed { page: VirtualPage { number: old(self).page_num() } },
            ) && final(self).bound_to() is None && final(alloc).avail().len() == 0
                && resolve(final(active_table)@, old(self).page_num()) is None,
            map_plan(old(active_table)@, eff_root(old(active_table)@), old(self).page_num())
                <= old(alloc).avail().len() ==> r is Ok,
            r is Ok ==> final(alloc).avail().len() >= old(alloc).avail().len() - 3,
    {
        let ghost m0 = active_table@;
        proof {
            crate::entry::lemma_flag_bits();
            assert(map_plan(m0, eff_root(m0), self.page_num()) >= 0);
        }
        let flags = EntryFlags { bits: PRESENT | WRITABLE };
        match active_table.pml4.map(self.page, frame, flags, alloc) {
            Ok(()) => {
                self.bound = Some(frame);
                proof {
                    crate::entry::lemma_entry_encode(frame.number, PRESENT | WRITABLE);
                    crate::model::lemma_idx_bounds(self.page_num());
                }
                Ok(())
            },
            Err(e) => {
                proof {
                    assert(e == MapErr::AllocationFailed { page: self.page });
                }
                Err(e)
            },
        }
    }

    /// Unbind the temporary page: clear its leaf entry in the
    /// hierarchy the window currently routes through, and hand back
    /// the frame it was bound to. The caller must only unbind while
    /// the binding is still mapped there.
    pub fn unbind(&mut self, active_table: &mut ActivePageTable) -> (f: Frame)
        requires
            wf(old(active_table)@),
            user_page(old(self).page_num()),
            old(self).bound_to() is Some,
            map_plan(
                old(active_table)@,
                eff_root(old(active_table)@),
                old(self).page_num(),
            ) == -1,
        ensures
            wf(final(active_table)@),
            final(active_table)@.cr3 == old(active_table)@.cr3,
            eff_root(final(active_table)@) == eff_root(old(active_table)@),
            final(active_table)@.store.dom() == old(active_table)@.store.dom(),
            final(active_table)@.lvl == old(active_table)@.lvl,
            final(self).page_num() == old(self).page_num(),
            final(self).bound_to() is None,
            final(active_table).full_flushes() == old(active_table).full_flushes(),
            final(active_table).page_flushes() == (if old(active_table).page_flushes()
                < u64::MAX {
                old(active_table).page_flushes() + 1
            } else {
                0
            }),
            forall|g: u64, j: u64|
                is_table(old(active_table)@, g) && j < 512 && old(active_table)@.lvl[g] != 1
                    ==> ent(final(active_table)@, g, j) == #[trigger] ent(old(active_table)@, g, j),
            f.number == entry_frame(
                l1e(old(active_table)@, eff_root(old(active_table)@), old(self).page_num()),
            ),
            resolve(final(active_table)@, old(self).page_num()) is None,
            forall|rr: u64, q: u64|
                is_l4(old(active_table)@, rr) && user_page(q) && !(rr == eff_root(
                    old(active_table)@,
                ) && q == old(self).page_num()) ==> #[trigger] resolve_at(
                    final(active_table)@,
                    rr,
                    q,
                ) == resolve_at(old(active_table)@, rr, q) && leaf_mapped_at(
                    final(active_table)@,
                    rr,
                    q,
                ) == leaf_mapped_at(old(active_table)@, rr, q),
    {
        match active_table.pml4.clear_mapping(self.page) {
            Ok(frame) => {
                self.bound = None;
                frame
            },
            Err(_) => {
                proof {
                    assert(false);
                }
                Frame { number: 1 }
            },
        }
    }
}

} // verus!
