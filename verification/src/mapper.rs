//! The mapping capability: the operation set exposed against the
//! top-level table the software window currently routes through.

use vstd::prelude::*;
use std::collections::HashMap;
use crate::addr::{PAddr, VAddr, PAGE_SIZE};
use crate::entry::{
    entry_present, entry_huge, entry_frame, entry_flags, entry_encode, encode_entry, decode_frame,
    lemma_entry_bounds, lemma_entry_encode, lemma_flag_bits, EntryFlags, PRESENT, WRITABLE, HUGE,
    FLAGS_LIMIT, FRAME_LIMIT,
};
use crate::model::{
    MachineModel, idx4, idx3, idx2, idx1, user_page, ent, eff_root, l4e, t3f, l3e, t2f, l2e, t1f,
    l1e, resolve_at, resolve, leaf_mapped_at, map_plan, is_table, is_l4, down_slot, wf,
    walk_reads, cell_written, lemma_idx_bounds, lemma_vpn_unique, lemma_walk_frames,
    lemma_untouched_walk, lemma_fresh_table, lemma_same_path, lemma_wf_after_install,
    lemma_wf_after_leaf_write, lemma_wf_after_redirect, lemma_wf_after_root_install,
    lemma_wf_after_link, lemma_link_zero_walk,
};
use crate::page::{Frame, Page, VirtualPage};
use crate::table::{Table, zero_table};
use crate::tlb::Tlb;

verus! {

broadcast use vstd::std_specs::hash::group_hash_axioms;

/// Why a mapping operation could not be carried out. Every variant
/// carries the page or region it failed on.
#[derive(Copy, Clone, Debug, PartialEq, Eq, Structural)]
pub enum MapErr {
    /// The target leaf entry was already in use; mappings are never
    /// overwritten silently.
    AlreadyMapped { page: VirtualPage, frame: Frame },
    /// The target leaf entry was not in use.
    NotMapped { page: VirtualPage },
    /// A huge mapping stands in the way of the operation.
    UnsupportedHugePage { page: VirtualPage },
    /// The frame allocator could not supply a frame.
    AllocationFailed { page: VirtualPage },
    /// A region to identity-map did not start on a page boundary.
    MisalignedRegion { addr: PAddr },
}

/// The outcome of a mapping operation.
pub type MapResult<T> = Result<T, MapErr>;

/// The currently routed top-level table, with the machine state it
/// stands on: the table frames, the base-table register and the
/// lookaside buffer. There is one instance per modeled processor;
/// every mapping operation goes through it.
pub struct ActivePML4 {
    tables: HashMap<u64, Table>,
    root_reg: u64,
    tlb: Tlb,
}

impl View for ActivePML4 {
    type V = MachineModel;

    closed spec fn view(&self) -> MachineModel {
        MachineModel {
            store: Map::new(
                |f: u64| self.tables@.dom().contains(f),
                |f: u64| self.tables@[f]@,
            ),
            lvl: Map::new(
                |f: u64| self.tables@.dom().contains(f),
                |f: u64| self.tables@[f].lvl(),
            ),
            cr3: self.root_reg,
        }
    }
}

impl ActivePML4 {
    /// How many single-page lookaside invalidations were issued.
    pub closed spec fn page_flushes(self) -> u64 {
        self.tlb.page_count()
    }

    /// How many whole-space lookaside invalidations were issued.
    pub closed spec fn full_flushes(self) -> u64 {
        self.tlb.full_count()
    }

    /// A machine whose only table is a fresh top-level table in
    /// `root`, already holding its recursive self-reference in slot
    /// 511, with the base-table register pointing at it. Nothing else
    /// is mapped.
    pub fn new(root: Frame) -> (s: Self)
        requires
            0 < root.number < FRAME_LIMIT,
        ensures
            wf(s@),
            s@.cr3 == root.number,
            eff_root(s@) == root.number,
            is_l4(s@, root.number),
            s@.store.dom() == Set::<u64>::empty().insert(root.number),
            forall|q: u64| user_page(q) ==> #[trigger] resolve(s@, q) is None,
            s.page_flushes() == 0,
            s.full_flushes() == 0,
    {
        proof {
            lemma_flag_bits();
        }
        let mut table = Table::zeroed(Ghost(4int));
        let self_ref = encode_entry(root.number, PRESENT | WRITABLE);
        table.set_entry(511, self_ref);
        let mut tables: HashMap<u64, Table> = HashMap::new();
        tables.insert(root.number, table);
        let s = ActivePML4 { tables, root_reg: root.number, tlb: Tlb::new() };
        proof {
            let m = s@;
            assert(m.store.dom() =~= Set::<u64>::empty().insert(root.number));
            assert(m.lvl.dom() =~= m.store.dom());
            assert(m.store[root.number] == zero_table().update(511, self_ref));
            assert(ent(m, root.number, 511) == self_ref);
            lemma_entry_encode(root.number, PRESENT | WRITABLE);
            assert(eff_root(m) == root.number);
            assert forall|f: u64, i: u64|
                is_table(m, f) && i < 512 && i != 511 implies !entry_present(
                #[trigger] ent(m, f, i),
            ) by {
                assert(ent(m, f, i) == 0u64);
                lemma_entry_bounds(ent(m, f, i));
            }
            assert forall|f: u64, i: u64| !down_slot(m, f, i) by {
                if is_table(m, f) && i < 512 && i != 511 {
                    assert(!entry_present(ent(m, f, i)));
                }
            }
            assert(wf(m));
            assert forall|q: u64| user_page(q) implies #[trigger] resolve(m, q) is None by {
                lemma_idx_bounds(q);
                assert(ent(m, root.number, idx4(q)) == 0u64);
                lemma_entry_bounds(0u64);
            }
        }
        s
    }

    /// The frame the recursive slot of the register's table
    /// references: the root that every walk below goes through.
    pub fn effective_root(&self) -> (r: u64)
        requires
            wf(self@),
        ensures
            r == eff_root(self@),
            is_l4(self@, r),
    {
        let e = self.read_cell(self.root_reg, 511);
        decode_frame(e)
    }

    /// The frame number in the base-table register.
    pub fn root_register(&self) -> (r: u64)
        ensures
            r == self@.cr3,
    {
        self.root_reg
    }

    /// Read the entry at slot `i` of the table in frame `f`.
    fn read_cell(&self, f: u64, i: usize) -> (e: u64)
        requires
            wf(self@),
            is_table(self@, f),
            i < 512,
        ensures
            e == ent(self@, f, i as u64),
    {
        let t = self.tables.get(&f).unwrap();
        proof {
            assert(t@ == self@.store[f]);
            assert(self@.store[f].len() == 512);
        }
        t.entry_at(i)
    }

    /// Overwrite the entry at slot `i` of the table in frame `f`.
    fn write_cell(&mut self, f: u64, i: usize, v: u64)
        requires
            is_table(old(self)@, f),
            old(self)@.store[f].len() == 512,
            i < 512,
        ensures
            cell_written(old(self)@, final(self)@, f, i as u64, v),
            final(self)@.store[f] == old(self)@.store[f].update(i as int, v),
            final(self).page_flushes() == old(self).page_flushes(),
            final(self).full_flushes() == old(self).full_flushes(),
    {
        let mut t = self.tables.remove(&f).unwrap();
        proof {
            assert(t@ == old(self)@.store[f]);
            assert(old(self)@.store[f].len() == 512);
        }
        t.set_entry(i, v);
        self.tables.insert(f, t);
        proof {
            assert(final(self)@.store =~= old(self)@.store.insert(
                f,
                old(self)@.store[f].update(i as int, v),
            ));
            assert(final(self)@.lvl =~= old(self)@.lvl);
        }
    }

    /// Install a fresh zeroed table for hierarchy level `level` in the
    /// previously unused frame `f`.
    fn install_table(&mut self, f: u64, level: Ghost<int>)
        requires
            !is_table(old(self)@, f),
        ensures
            final(self)@.store == old(self)@.store.insert(f, zero_table()),
            final(self)@.lvl == old(self)@.lvl.insert(f, level@),
            final(self)@.cr3 == old(self)@.cr3,
            final(self).page_flushes() == old(self).page_flushes(),
            final(self).full_flushes() == old(self).full_flushes(),
    {
        let t = Table::zeroed(level);
        self.tables.insert(f, t);
        proof {
            assert(final(self)@.store =~= old(self)@.store.insert(f, zero_table()));
            assert(final(self)@.lvl =~= old(self)@.lvl.insert(f, level@));
        }
    }

    /// Whether the given page currently translates to some frame.
    pub fn is_mapped(&self, page: &VirtualPage) -> (r: bool)
        requires
            wf(self@),
            user_page(page.number),
        ensures
            r == (resolve(self@, page.number) is Some),
    {
        self.translate_page(*page).is_some()
    }

    /// Translate a virtual address to the physical address it maps
    /// to, if any: locate the containing page, translate it, and add
    /// the in-page offset back.
    pub fn translate(&self, vaddr: VAddr) -> (r: Option<PAddr>)
        requires
            wf(self@),
            user_page(vaddr.0 / PAGE_SIZE),
        ensures
            match resolve(self@, vaddr.0 / PAGE_SIZE) {
                Some((f, fl)) => r == Some(PAddr((f * PAGE_SIZE + vaddr.0 % PAGE_SIZE) as u64)),
                None => r is None,
            },
    {
        let offset = vaddr.0 % PAGE_SIZE;
        let page = VirtualPage { number: vaddr.0 / PAGE_SIZE };
        match self.translate_page(page) {
            Some(frame) => Some(PAddr(frame.number * PAGE_SIZE + offset)),
            None => None,
        }
    }

    /// Translate a virtual page to the frame it maps to, if any:
    /// descend the directory levels; a huge entry above the leaf
    /// level yields the frame directly from the entry plus the
    /// residual low indices.
    pub fn translate_page(&self, page: VirtualPage) -> (r: Option<Frame>)
        requires
            wf(self@),
            user_page(page.number),
        ensures
            match resolve(self@, page.number) {
                Some((f, fl)) => r == Some(Frame { number: f }),
                None => r is None,
            },
            r is Some ==> r.unwrap().number < 0x100_0400_0000,
    {
        let vpn = page.number;
        proof {
            lemma_idx_bounds(vpn);
            lemma_walk_frames(self@, eff_root(self@), vpn);
        }
        let root = self.effective_root();
        let e4 = self.read_cell(root, page_idx4(vpn));
        if !e_present(e4) {
            return None;
        }
        let t3 = decode_frame(e4);
        let e3 = self.read_cell(t3, page_idx3(vpn));
        if !e_present(e3) {
            return None;
        }
        if e_huge(e3) {
            let base = decode_frame(e3);
            return Some(Frame { number: base + 512 * page_idx2(vpn) as u64 + page_idx1(vpn) as u64 });
        }
        let t2 = decode_frame(e3);
        let e2 = self.read_cell(t2, page_idx2(vpn));
        if !e_present(e2) {
            return None;
        }
        if e_huge(e2) {
            let base = decode_frame(e2);
            return Some(Frame { number: base + page_idx1(vpn) as u64 });
        }
        let t1 = decode_frame(e2);
        let e1 = self.read_cell(t1, page_idx1(vpn));
        if !e_present(e1) {
            return None;
        }
        Some(Frame { number: decode_frame(e1) })
    }
}

impl ActivePML4 {
    /// Modify the tables so that `page` maps to `frame` with the
    /// given flags (plus the present bit): descend the hierarchy,
    /// creating missing directories from freshly allocated frames,
    /// and write the leaf entry, which must be unused — an in-use
    /// leaf entry is never overwritten.
    ///
    /// On success the page translates to the frame, and no other
    /// user-page translation, through any top-level table, changes.
    /// On failure nothing observable changes: directories created
    /// before the failure are empty.
    #[verifier::rlimit(60)]
    pub fn map<A: crate::frame_alloc::FrameAllocator>(
        &mut self,
        page: VirtualPage,
        frame: Frame,
        flags: EntryFlags,
        alloc: &mut A,
    ) -> (r: MapResult<()>)
        requires
            wf(old(self)@),
            user_page(page.number),
            0 < frame.number < FRAME_LIMIT,
            flags.bits < FLAGS_LIMIT,
            crate::frame_alloc::frames_fresh(alloc.avail(), old(self)@.store.dom()),
        ensures
            wf(final(self)@),
            final(self)@.cr3 == old(self)@.cr3,
            eff_root(final(self)@) == eff_root(old(self)@),
            final(alloc).freed() == old(alloc).freed(),
            crate::frame_alloc::frames_fresh(final(alloc).avail(), final(self)@.store.dom()),
            final(self).page_flushes() == old(self).page_flushes(),
            final(self).full_flushes() == old(self).full_flushes(),
            forall|g: u64|
                #[trigger] is_table(old(self)@, g) ==> is_table(final(self)@, g)
                    && final(self)@.lvl[g] == old(self)@.lvl[g],
            forall|g: u64| #[trigger] is_l4(final(self)@, g) == is_l4(old(self)@, g),
            forall|g: u64|
                #[trigger] is_table(final(self)@, g) ==> is_table(old(self)@, g) || old(
                    alloc,
                ).avail().contains(g),
            forall|g: u64|
                #[trigger] is_l4(old(self)@, g) ==> ent(final(self)@, g, 511) == ent(
                    old(self)@,
                    g,
                    511,
                ),
            forall|rr: u64, q: u64|
                is_l4(old(self)@, rr) && user_page(q) && !(rr == eff_root(old(self)@) && q
                    == page.number) ==> #[trigger] resolve_at(final(self)@, rr, q) == resolve_at(
                    old(self)@,
                    rr,
                    q,
                ) && leaf_mapped_at(final(self)@, rr, q) == leaf_mapped_at(old(self)@, rr, q),
            ({
                let plan = map_plan(old(self)@, eff_root(old(self)@), page.number);
                &&& (plan == -2 ==> r == MapResult::<()>::Err(MapErr::UnsupportedHugePage { page })
                    && final(self)@ == old(self)@ && final(alloc).avail() == old(alloc).avail())
                &&& (plan == -1 ==> r == MapResult::<()>::Err(
                    MapErr::AlreadyMapped { page, frame },
                ) && final(self)@ == old(self)@ && final(alloc).avail() == old(alloc).avail())
                &&& (plan >= 0 && old(alloc).avail().len() >= plan ==> r == MapResult::<()>::Ok(())
                    && resolve(final(self)@, page.number) == Some(
                    (frame.number, flags.bits | PRESENT),
                ) && leaf_mapped_at(final(self)@, eff_root(old(self)@), page.number)
                    && final(alloc).avail() == old(alloc).avail().take(
                    old(alloc).avail().len() - plan,
                ))
                &&& (plan >= 0 && old(alloc).avail().len() < plan ==> r == MapResult::<()>::Err(
                    MapErr::AllocationFailed { page },
                ) && final(alloc).avail().len() == 0 && resolve(final(self)@, page.number)
                    == resolve(old(self)@, page.number))
            }),
    {
        let ghost m0 = self@;
        let ghost av0 = alloc.avail();
        let ghost pn = page.number;
        let root = self.effective_root();
        proof {
            lemma_idx_bounds(pn);
            lemma_walk_frames(m0, root, pn);
            lemma_entry_bounds(0u64);
            lemma_flag_bits();
        }
        let ghost plan = map_plan(m0, root, pn);
        let i4 = page_idx4(page.number);
        let i3 = page_idx3(page.number);
        let i2 = page_idx2(page.number);
        let i1 = page_idx1(page.number);

        // top level -> upper directory
        let t3: u64;
        match self.create_next(root, i4, Ghost(3int), alloc) {
            NextTable::Ready(c) => {
                t3 = c;
            },
            NextTable::HugeBlocked => {
                // a present top-level entry is never huge
                proof {
                    assert(false);
                }
                return Err(MapErr::UnsupportedHugePage { page });
            },
            NextTable::Exhausted => {
                proof {
                    assert(plan == 3);
                }
                return Err(MapErr::AllocationFailed { page });
            },
        }
        let ghost m1 = self@;
        let ghost av1 = alloc.avail();
        proof {
            if entry_present(l4e(m0, root, pn)) {
                assert(m1 == m0 && av1 == av0);
                assert(t3 == t3f(m0, root, pn));
            } else {
                assert(plan == 3);
                assert(ent(m1, t3, idx3(pn)) == 0u64);
            }
            assert(is_l4(m1, root));
            assert(m1.lvl[t3] == 3 && m1.lvl[root] == 4);
        }

        // upper directory -> middle directory
        let t2: u64;
        match self.create_next(t3, i3, Ghost(2int), alloc) {
            NextTable::Ready(c) => {
                t2 = c;
            },
            NextTable::HugeBlocked => {
                proof {
                    assert(entry_present(l4e(m0, root, pn)));
                    assert(ent(m1, t3, idx3(pn)) == l3e(m0, root, pn));
                    assert(plan == -2);
                }
                return Err(MapErr::UnsupportedHugePage { page });
            },
            NextTable::Exhausted => {
                proof {
                    if entry_present(l4e(m0, root, pn)) {
                        assert(ent(m1, t3, idx3(pn)) == l3e(m0, root, pn));
                        assert(plan == 2);
                    }
                    assert(av0.len() < plan);
                    assert forall|rr: u64, q: u64|
                        is_l4(m0, rr) && user_page(q) implies #[trigger] resolve_at(m1, rr, q)
                        == resolve_at(m0, rr, q) && leaf_mapped_at(m1, rr, q) == leaf_mapped_at(
                        m0,
                        rr,
                        q,
                    ) by {}
                    assert forall|g: u64| #[trigger] is_l4(m0, g) implies ent(m1, g, 511) == ent(
                        m0,
                        g,
                        511,
                    ) by {}
                }
                return Err(MapErr::AllocationFailed { page });
            },
        }
        let ghost m2 = self@;
        let ghost av2 = alloc.avail();
        proof {
            assert(ent(m2, root, idx4(pn)) == ent(m1, root, idx4(pn)));
            if entry_present(l4e(m0, root, pn)) && entry_present(l3e(m0, root, pn)) && !entry_huge(
                l3e(m0, root, pn),
            ) {
                assert(m2 == m0 && av2 == av0);
                assert(t2 == t2f(m0, root, pn));
            } else {
                assert(ent(m2, t2, idx2(pn)) == 0u64);
            }
            assert(m2.lvl[t2] == 2);
        }

        // middle directory -> leaf table
        let t1: u64;
        match self.create_next(t2, i2, Ghost(1int), alloc) {
            NextTable::Ready(c) => {
                t1 = c;
            },
            NextTable::HugeBlocked => {
                proof {
                    assert(entry_present(l4e(m0, root, pn)) && entry_present(l3e(m0, root, pn))
                        && !entry_huge(l3e(m0, root, pn)));
                    assert(ent(m2, t2, idx2(pn)) == l2e(m0, root, pn));
                    assert(plan == -2);
                }
                return Err(MapErr::UnsupportedHugePage { page });
            },
            NextTable::Exhausted => {
                proof {
                    if entry_present(l4e(m0, root, pn)) && entry_present(l3e(m0, root, pn))
                        && !entry_huge(l3e(m0, root, pn)) {
                        assert(ent(m2, t2, idx2(pn)) == l2e(m0, root, pn));
                        assert(plan == 1);
                    }
                    assert(av0.len() < plan);
                    assert forall|rr: u64, q: u64|
                        is_l4(m0, rr) && user_page(q) implies #[trigger] resolve_at(m2, rr, q)
                        == resolve_at(m0, rr, q) && leaf_mapped_at(m2, rr, q) == leaf_mapped_at(
                        m0,
                        rr,
                        q,
                    ) by {
                        assert(resolve_at(m1, rr, q) == resolve_at(m0, rr, q));
                    }
                    assert forall|g: u64| #[trigger] is_l4(m0, g) implies ent(m2, g, 511) == ent(
                        m0,
                        g,
                        511,
                    ) by {
                        assert(ent(m1, g, 511) == ent(m0, g, 511));
                    }
                }
                return Err(MapErr::AllocationFailed { page });
            },
        }
        let ghost m3 = self@;
        let ghost av3 = alloc.avail();
        proof {
            assert(ent(m3, root, idx4(pn)) == ent(m1, root, idx4(pn)));
            assert(ent(m3, t3, idx3(pn)) == ent(m2, t3, idx3(pn)));
            if entry_present(l4e(m0, root, pn)) && entry_present(l3e(m0, root, pn)) && !entry_huge(
                l3e(m0, root, pn),
            ) && entry_present(l2e(m0, root, pn)) && !entry_huge(l2e(m0, root, pn)) {
                assert(m3 == m0 && av3 == av0);
                assert(t1 == t1f(m0, root, pn));
            } else {
                assert(ent(m3, t1, idx1(pn)) == 0u64);
            }
            assert(m3.lvl[t1] == 1);
            assert forall|rr: u64, q: u64|
                is_l4(m0, rr) && user_page(q) implies #[trigger] resolve_at(m3, rr, q)
                == resolve_at(m0, rr, q) && leaf_mapped_at(m3, rr, q) == leaf_mapped_at(
                m0,
                rr,
                q,
            ) by {
                assert(resolve_at(m1, rr, q) == resolve_at(m0, rr, q));
                assert(resolve_at(m2, rr, q) == resolve_at(m1, rr, q));
            }
        }

        // the leaf entry itself: never overwritten
        let e1 = self.read_cell(t1, i1);
        if e_present(e1) {
            proof {
                assert(m3 == m0);
                assert(e1 == l1e(m0, root, pn));
                assert(plan == -1);
            }
            return Err(MapErr::AlreadyMapped { page, frame });
        }
        let newent = encode_entry(frame.number, flags.bits | PRESENT);
        proof {
            lemma_entry_encode(frame.number, flags.bits | PRESENT);
        }
        self.write_cell(t1, i1, newent);
        let ghost m4 = self@;
        proof {
            lemma_wf_after_leaf_write(m3, m4, t1, idx1(pn), newent);
            // the mapped page now translates to the frame
            assert(ent(m4, root, idx4(pn)) == ent(m3, root, idx4(pn)));
            assert(eff_root(m4) == root);
            assert(t3f(m4, root, pn) == t3);
            assert(ent(m4, t3, idx3(pn)) == ent(m3, t3, idx3(pn)));
            assert(t2f(m4, root, pn) == t2);
            assert(ent(m4, t2, idx2(pn)) == ent(m3, t2, idx2(pn)));
            assert(t1f(m4, root, pn) == t1);
            assert(l1e(m4, root, pn) == newent);
            assert(resolve_at(m4, root, pn) == Some((frame.number, flags.bits | PRESENT)));
            assert(leaf_mapped_at(m4, root, pn));
            // nothing else changed
            assert forall|rr: u64, q: u64|
                is_l4(m0, rr) && user_page(q) && !(rr == root && q == pn) implies #[trigger] resolve_at(
                m4,
                rr,
                q,
            ) == resolve_at(m0, rr, q) && leaf_mapped_at(m4, rr, q) == leaf_mapped_at(
                m0,
                rr,
                q,
            ) by {
                assert(resolve_at(m3, rr, q) == resolve_at(m0, rr, q));
                assert(leaf_mapped_at(m3, rr, q) == leaf_mapped_at(m0, rr, q));
                assert(is_l4(m3, rr));
                if walk_reads(m3, rr, q, t1, idx1(pn)) {
                    lemma_idx_bounds(q);
                    lemma_walk_frames(m3, rr, q);
                    if rr == t1 {
                        assert(false);
                    } else if entry_present(l4e(m3, rr, q)) && t3f(m3, rr, q) == t1 && idx3(q)
                        == idx1(pn) {
                        assert(false);
                    } else if entry_present(l4e(m3, rr, q)) && entry_present(l3e(m3, rr, q))
                        && !entry_huge(l3e(m3, rr, q)) && t2f(m3, rr, q) == t1 && idx2(q)
                        == idx1(pn) {
                        assert(false);
                    } else {
                        assert(entry_present(l4e(m3, rr, q)) && entry_present(l3e(m3, rr, q))
                            && !entry_huge(l3e(m3, rr, q)) && entry_present(l2e(m3, rr, q))
                            && !entry_huge(l2e(m3, rr, q)) && t1f(m3, rr, q) == t1 && idx1(q)
                            == idx1(pn));
                        assert(l4e(m3, root, pn) == ent(m3, root, idx4(pn)));
                        assert(l3e(m3, root, pn) == ent(m3, t3, idx3(pn)));
                        assert(l2e(m3, root, pn) == ent(m3, t2, idx2(pn)));
                        assert(t1f(m3, root, pn) == t1);
                        lemma_same_path(m3, root, pn, rr, q);
                        lemma_vpn_unique(pn, q);
                        assert(false);
                    }
                } else {
                    lemma_untouched_walk(m3, m4, t1, idx1(pn), newent, rr, q);
                }
            }
            assert forall|g: u64| #[trigger] is_l4(m0, g) implies ent(m4, g, 511) == ent(
                m0,
                g,
                511,
            ) by {
                assert(ent(m1, g, 511) == ent(m0, g, 511));
                assert(ent(m2, g, 511) == ent(m1, g, 511));
                assert(ent(m3, g, 511) == ent(m2, g, 511));
                assert(m3.lvl[g] == 4 && m3.lvl[t1] == 1);
                assert(ent(m4, g, 511) == ent(m3, g, 511));
            }
            assert forall|g: u64| #[trigger] is_l4(m4, g) == is_l4(m0, g) by {
                assert(is_l4(m1, g) == is_l4(m0, g));
                assert(is_l4(m2, g) == is_l4(m1, g));
                assert(is_l4(m3, g) == is_l4(m2, g));
            }
            assert forall|g: u64| #[trigger] is_table(m0, g) implies is_table(m4, g) && m4.lvl[g]
                == m0.lvl[g] by {
                assert(is_table(m1, g) && m1.lvl[g] == m0.lvl[g]);
                assert(is_table(m2, g) && m2.lvl[g] == m1.lvl[g]);
                assert(is_table(m3, g) && m3.lvl[g] == m2.lvl[g]);
            }
            // allocation accounting: exactly `plan` frames were taken
            if plan == 0 {
                assert(av3 == av0);
                assert(av3 =~= av0.take(av0.len() - 0));
            } else if plan == 1 {
                assert(av3 =~= av0.take(av0.len() - 1));
            } else if plan == 2 {
                assert(av3 =~= av0.take(av0.len() - 2));
            } else {
                assert(plan == 3);
                assert(av3 =~= av0.take(av0.len() - 3));
            }
        }
        Ok(())
    }
}

impl ActivePML4 {
    /// Map the page whose base address equals the frame's base
    /// address to that same frame.
    pub fn identity_map<A: crate::frame_alloc::FrameAllocator>(
        &mut self,
        frame: Frame,
        flags: EntryFlags,
        alloc: &mut A,
    ) -> (r: MapResult<()>)
        requires
            wf(old(self)@),
            user_page(frame.number),
            0 < frame.number < FRAME_LIMIT,
            flags.bits < FLAGS_LIMIT,
            crate::frame_alloc::frames_fresh(alloc.avail(), old(self)@.store.dom()),
        ensures
            wf(final(self)@),
            final(self)@.cr3 == old(self)@.cr3,
            eff_root(final(self)@) == eff_root(old(self)@),
            final(alloc).freed() == old(alloc).freed(),
            crate::frame_alloc::frames_fresh(final(alloc).avail(), final(self)@.store.dom()),
            final(self).page_flushes() == old(self).page_flushes(),
            final(self).full_flushes() == old(self).full_flushes(),
            forall|g: u64|
                #[trigger] is_table(old(self)@, g) ==> is_table(final(self)@, g)
                    && final(self)@.lvl[g] == old(self)@.lvl[g],
            forall|g: u64| #[trigger] is_l4(final(self)@, g) == is_l4(old(self)@, g),
            forall|rr: u64, q: u64|
                is_l4(old(self)@, rr) && user_page(q) && !(rr == eff_root(old(self)@) && q
                    == frame.number) ==> #[trigger] resolve_at(final(self)@, rr, q) == resolve_at(
                    old(self)@,
                    rr,
                    q,
                ) && leaf_mapped_at(final(self)@, rr, q) == leaf_mapped_at(old(self)@, rr, q),
            ({
                let plan = map_plan(old(self)@, eff_root(old(self)@), frame.number);
                let page = VirtualPage { number: frame.number };
                &&& (plan == -2 ==> r == MapResult::<()>::Err(MapErr::UnsupportedHugePage { page })
                    && final(self)@ == old(self)@ && final(alloc).avail() == old(alloc).avail())
                &&& (plan == -1 ==> r == MapResult::<()>::Err(
                    MapErr::AlreadyMapped { page, frame },
                ) && final(self)@ == old(self)@ && final(alloc).avail() == old(alloc).avail())
                &&& (plan >= 0 && old(alloc).avail().len() >= plan ==> r == MapResult::<()>::Ok(())
                    && resolve(final(self)@, frame.number) == Some(
                    (frame.number, flags.bits | PRESENT),
                ) && leaf_mapped_at(final(self)@, eff_root(old(self)@), frame.number)
                    && final(alloc).avail() == old(alloc).avail().take(
                    old(alloc).avail().len() - plan,
                ))
                &&& (plan >= 0 && old(alloc).avail().len() < plan ==> r == MapResult::<()>::Err(
                    MapErr::AllocationFailed { page },
                ) && final(alloc).avail().len() == 0 && resolve(final(self)@, frame.number)
                    == resolve(old(self)@, frame.number))
            }),
    {
        self.map(VirtualPage { number: frame.number }, frame, flags, alloc)
    }

    /// Request a fresh frame from the allocator and map `page` to it.
    pub fn map_to_any<A: crate::frame_alloc::FrameAllocator>(
        &mut self,
        page: VirtualPage,
        flags: EntryFlags,
        alloc: &mut A,
    ) -> (r: MapResult<()>)
        requires
            wf(old(self)@),
            user_page(page.number),
            flags.bits < FLAGS_LIMIT,
            crate::frame_alloc::frames_fresh(alloc.avail(), old(self)@.store.dom()),
        ensures
            wf(final(self)@),
            final(self)@.cr3 == old(self)@.cr3,
            eff_root(final(self)@) == eff_root(old(self)@),
            final(alloc).freed() == old(alloc).freed(),
            crate::frame_alloc::frames_fresh(final(alloc).avail(), final(self)@.store.dom()),
            forall|rr: u64, q: u64|
                is_l4(old(self)@, rr) && user_page(q) && !(rr == eff_root(old(self)@) && q
                    == page.number) ==> #[trigger] resolve_at(final(self)@, rr, q) == resolve_at(
                    old(self)@,
                    rr,
                    q,
                ),
            old(alloc).avail().len() == 0 ==> r == MapResult::<()>::Err(
                MapErr::AllocationFailed { page },
            ) && final(self)@ == old(self)@ && final(alloc).avail() == old(alloc).avail(),
            ({
                let plan = map_plan(old(self)@, eff_root(old(self)@), page.number);
                let n0 = old(alloc).avail().len();
                let fnew = Frame { number: old(alloc).avail().last() };
                n0 > 0 ==> {
                    &&& (plan == -2 ==> r == MapResult::<()>::Err(
                        MapErr::UnsupportedHugePage { page },
                    ) && final(self)@ == old(self)@)
                    &&& (plan == -1 ==> r == MapResult::<()>::Err(
                        MapErr::AlreadyMapped { page, frame: fnew },
                    ) && final(self)@ == old(self)@)
                    &&& (plan >= 0 && n0 - 1 >= plan ==> r == MapResult::<()>::Ok(()) && resolve(
                        final(self)@,
                        page.number,
                    ) == Some((fnew.number, flags.bits | PRESENT)))
                    &&& (plan >= 0 && n0 - 1 < plan ==> r == MapResult::<()>::Err(
                        MapErr::AllocationFailed { page },
                    ) && resolve(final(self)@, page.number) == resolve(old(self)@, page.number))
                }
            }),
    {
        let ghost m0 = self@;
        let ghost av0 = alloc.avail();
        match alloc.allocate() {
            None => Err(MapErr::AllocationFailed { page }),
            Some(frame) => {
                proof {
                    assert(av0[av0.len() - 1] == frame.number);
                    assert(0 < frame.number < FRAME_LIMIT);
                    assert forall|i: int|
                        0 <= i < alloc.avail().len() implies 0 < #[trigger] alloc.avail()[i]
                        < FRAME_LIMIT && !m0.store.dom().contains(alloc.avail()[i]) by {
                        assert(alloc.avail()[i] == av0[i]);
                    }
                }
                self.map(page, frame, flags, alloc)
            },
        }
    }

    /// Remove the leaf entry for `page` and hand back the frame it
    /// referenced, invalidating the cached translation. The frame is
    /// not returned to any allocator: the caller decides its fate.
    /// Fails with `NotMapped` on an unused leaf entry, and with
    /// `UnsupportedHugePage` when a directory on the path is missing
    /// or a huge entry terminates the walk early.
    #[verifier::rlimit(60)]
    pub fn clear_mapping(&mut self, page: VirtualPage) -> (r: MapResult<Frame>)
        requires
            wf(old(self)@),
            user_page(page.number),
        ensures
            wf(final(self)@),
            final(self)@.cr3 == old(self)@.cr3,
            eff_root(final(self)@) == eff_root(old(self)@),
            final(self)@.store.dom() == old(self)@.store.dom(),
            final(self)@.lvl == old(self)@.lvl,
            final(self).full_flushes() == old(self).full_flushes(),
            forall|g: u64, j: u64|
                is_table(old(self)@, g) && j < 512 && old(self)@.lvl[g] != 1 ==> ent(
                    final(self)@,
                    g,
                    j,
                ) == #[trigger] ent(old(self)@, g, j),
            forall|rr: u64, q: u64|
                is_l4(old(self)@, rr) && user_page(q) && !(rr == eff_root(old(self)@) && q
                    == page.number) ==> #[trigger] resolve_at(final(self)@, rr, q) == resolve_at(
                    old(self)@,
                    rr,
                    q,
                ) && leaf_mapped_at(final(self)@, rr, q) == leaf_mapped_at(old(self)@, rr, q),
            ({
                let plan = map_plan(old(self)@, eff_root(old(self)@), page.number);
                &&& (plan == -1 <==> r is Ok)
                &&& (plan == -1 ==> r == MapResult::<Frame>::Ok(
                    Frame {
                        number: entry_frame(
                            l1e(old(self)@, eff_root(old(self)@), page.number),
                        ),
                    },
                ) && resolve(final(self)@, page.number) is None && !leaf_mapped_at(
                    final(self)@,
                    eff_root(old(self)@),
                    page.number,
                ) && final(self).page_flushes() == (if old(self).page_flushes() < u64::MAX {
                    old(self).page_flushes() + 1
                } else {
                    0
                }))
                &&& (plan == 0 ==> r == MapResult::<Frame>::Err(MapErr::NotMapped { page })
                    && final(self)@ == old(self)@
                    && final(self).page_flushes() == old(self).page_flushes())
                &&& (plan == 1 || plan == 2 || plan == 3 || plan == -2 ==> r
                    == MapResult::<Frame>::Err(MapErr::UnsupportedHugePage { page })
                    && final(self)@ == old(self)@
                    && final(self).page_flushes() == old(self).page_flushes())
            }),
    {
        let ghost m0 = self@;
        let ghost pn = page.number;
        let root = self.effective_root();
        proof {
            lemma_idx_bounds(pn);
            lemma_walk_frames(m0, root, pn);
            lemma_entry_bounds(0u64);
        }
        let i4 = page_idx4(page.number);
        let i3 = page_idx3(page.number);
        let i2 = page_idx2(page.number);
        let i1 = page_idx1(page.number);
        let e4 = self.read_cell(root, i4);
        if !e_present(e4) {
            return Err(MapErr::UnsupportedHugePage { page });
        }
        let t3 = decode_frame(e4);
        let e3 = self.read_cell(t3, i3);
        if !e_present(e3) || e_huge(e3) {
            return Err(MapErr::UnsupportedHugePage { page });
        }
        let t2 = decode_frame(e3);
        let e2 = self.read_cell(t2, i2);
        if !e_present(e2) || e_huge(e2) {
            return Err(MapErr::UnsupportedHugePage { page });
        }
        let t1 = decode_frame(e2);
        let e1 = self.read_cell(t1, i1);
        if !e_present(e1) {
            return Err(MapErr::NotMapped { page });
        }
        let freed = decode_frame(e1);
        self.write_cell(t1, i1, 0u64);
        self.tlb.flush(page);
        let ghost m4 = self@;
        proof {
            lemma_wf_after_leaf_write(m0, m4, t1, idx1(pn), 0u64);
            assert(ent(m4, root, idx4(pn)) == ent(m0, root, idx4(pn)));
            assert(eff_root(m4) == root);
            assert(t3f(m4, root, pn) == t3);
            assert(ent(m4, t3, idx3(pn)) == ent(m0, t3, idx3(pn)));
            assert(t2f(m4, root, pn) == t2);
            assert(ent(m4, t2, idx2(pn)) == ent(m0, t2, idx2(pn)));
            assert(t1f(m4, root, pn) == t1);
            assert(l1e(m4, root, pn) == 0u64);
            assert(resolve_at(m4, root, pn) is None);
            assert forall|rr: u64, q: u64|
                is_l4(m0, rr) && user_page(q) && !(rr == root && q == pn) implies #[trigger] resolve_at(
                m4,
                rr,
                q,
            ) == resolve_at(m0, rr, q) && leaf_mapped_at(m4, rr, q) == leaf_mapped_at(
                m0,
                rr,
                q,
            ) by {
                if walk_reads(m0, rr, q, t1, idx1(pn)) {
                    lemma_idx_bounds(q);
                    lemma_walk_frames(m0, rr, q);
                    if rr == t1 {
                        assert(false);
                    } else if entry_present(l4e(m0, rr, q)) && t3f(m0, rr, q) == t1 && idx3(q)
                        == idx1(pn) {
                        assert(false);
                    } else if entry_present(l4e(m0, rr, q)) && entry_present(l3e(m0, rr, q))
                        && !entry_huge(l3e(m0, rr, q)) && t2f(m0, rr, q) == t1 && idx2(q)
                        == idx1(pn) {
                        assert(false);
                    } else {
                        assert(entry_present(l4e(m0, rr, q)) && entry_present(l3e(m0, rr, q))
                            && !entry_huge(l3e(m0, rr, q)) && entry_present(l2e(m0, rr, q))
                            && !entry_huge(l2e(m0, rr, q)) && t1f(m0, rr, q) == t1 && idx1(q)
                            == idx1(pn));
                        assert(t1f(m0, root, pn) == t1);
                        lemma_same_path(m0, root, pn, rr, q);
                        lemma_vpn_unique(pn, q);
                        assert(false);
                    }
                } else {
                    lemma_untouched_walk(m0, m4, t1, idx1(pn), 0u64, rr, q);
                }
            }
        }
        Ok(Frame { number: freed })
    }

    /// Whether the given page is mapped through a full four-level
    /// walk, with no huge entry involved: exactly the mappings that
    /// `unmap` can remove.
    pub fn is_leaf_mapped(&self, page: VirtualPage) -> (r: bool)
        requires
            wf(self@),
            user_page(page.number),
        ensures
            r == leaf_mapped_at(self@, eff_root(self@), page.number),
    {
        let vpn = page.number;
        proof {
            lemma_idx_bounds(vpn);
            lemma_walk_frames(self@, eff_root(self@), vpn);
        }
        let root = self.effective_root();
        let e4 = self.read_cell(root, page_idx4(vpn));
        if !e_present(e4) {
            return false;
        }
        let t3 = decode_frame(e4);
        let e3 = self.read_cell(t3, page_idx3(vpn));
        if !e_present(e3) || e_huge(e3) {
            return false;
        }
        let t2 = decode_frame(e3);
        let e2 = self.read_cell(t2, page_idx2(vpn));
        if !e_present(e2) || e_huge(e2) {
            return false;
        }
        let t1 = decode_frame(e2);
        let e1 = self.read_cell(t1, page_idx1(vpn));
        e_present(e1)
    }

    /// Unmap the given page: remove its leaf entry, invalidate the
    /// cached translation, and return the freed frame to the
    /// allocator. The frame is released exactly once: the allocator's
    /// retirement log grows by exactly that frame. Emptied directory
    /// tables are not reclaimed.
    pub fn unmap<A: crate::frame_alloc::FrameAllocator>(
        &mut self,
        page: VirtualPage,
        alloc: &mut A,
    ) -> (r: MapResult<()>)
        requires
            wf(old(self)@),
            user_page(page.number),
        ensures
            wf(final(self)@),
            final(self)@.cr3 == old(self)@.cr3,
            eff_root(final(self)@) == eff_root(old(self)@),
            final(self)@.store.dom() == old(self)@.store.dom(),
            final(self)@.lvl == old(self)@.lvl,
            final(alloc).avail() == old(alloc).avail(),
            forall|rr: u64, q: u64|
                is_l4(old(self)@, rr) && user_page(q) && !(rr == eff_root(old(self)@) && q
                    == page.number) ==> #[trigger] resolve_at(final(self)@, rr, q) == resolve_at(
                    old(self)@,
                    rr,
                    q,
                ) && leaf_mapped_at(final(self)@, rr, q) == leaf_mapped_at(old(self)@, rr, q),
            r is Ok <==> leaf_mapped_at(old(self)@, eff_root(old(self)@), page.number),
            r is Err ==> final(self).page_flushes() == old(self).page_flushes(),
            ({
                let plan = map_plan(old(self)@, eff_root(old(self)@), page.number);
                &&& (plan == -1 ==> r == MapResult::<()>::Ok(()) && resolve(
                    final(self)@,
                    page.number,
                ) is None && final(alloc).freed() == old(alloc).freed().push(
                    entry_frame(l1e(old(self)@, eff_root(old(self)@), page.number)),
                ) && final(self).page_flushes() == (if old(self).page_flushes() < u64::MAX {
                    old(self).page_flushes() + 1
                } else {
                    0
                }))
                &&& (plan == 0 ==> r == MapResult::<()>::Err(MapErr::NotMapped { page })
                    && final(self)@ == old(self)@ && final(alloc).freed() == old(alloc).freed())
                &&& (plan == 1 || plan == 2 || plan == 3 || plan == -2 ==> r
                    == MapResult::<()>::Err(MapErr::UnsupportedHugePage { page }) && final(self)@
                    == old(self)@ && final(alloc).freed() == old(alloc).freed())
            }),
    {
        match self.clear_mapping(page) {
            Ok(frame) => {
                alloc.deallocate(frame);
                Ok(())
            },
            Err(e) => Err(e),
        }
    }
}

impl ActivePML4 {
    /// Turn the previously unused frame `x` into an empty top-level
    /// table whose recursive slot references itself. Existing walks
    /// are untouched; the new table maps nothing.
    pub(crate) fn install_root_table(&mut self, x: Frame)
        requires
            wf(old(self)@),
            !is_table(old(self)@, x.number),
            0 < x.number < FRAME_LIMIT,
        ensures
            wf(final(self)@),
            final(self)@.cr3 == old(self)@.cr3,
            eff_root(final(self)@) == eff_root(old(self)@),
            final(self)@.store.dom() == old(self)@.store.dom().insert(x.number),
            is_l4(final(self)@, x.number),
            entry_present(ent(final(self)@, x.number, 511)),
            entry_frame(ent(final(self)@, x.number, 511)) == x.number,
            final(self)@.store[x.number] == zero_table().update(
                511,
                entry_encode(x.number, PRESENT | WRITABLE),
            ),
            forall|g: u64|
                #[trigger] is_table(old(self)@, g) ==> is_table(final(self)@, g)
                    && final(self)@.lvl[g] == old(self)@.lvl[g],
            forall|g: u64, j: u64|
                is_table(old(self)@, g) && j < 512 ==> ent(final(self)@, g, j)
                    == #[trigger] ent(old(self)@, g, j),
            forall|rr: u64, q: u64|
                is_l4(old(self)@, rr) && user_page(q) ==> #[trigger] resolve_at(
                    final(self)@,
                    rr,
                    q,
                ) == resolve_at(old(self)@, rr, q) && leaf_mapped_at(final(self)@, rr, q)
                    == leaf_mapped_at(old(self)@, rr, q),
            forall|q: u64| user_page(q) ==> #[trigger] resolve_at(final(self)@, x.number, q) is None,
            final(self).page_flushes() == old(self).page_flushes(),
            final(self).full_flushes() == old(self).full_flushes(),
    {
        let ghost m1 = self@;
        proof {
            lemma_flag_bits();
        }
        self.install_table(x.number, Ghost(4int));
        let ghost mmid = self@;
        let selfref = encode_entry(x.number, PRESENT | WRITABLE);
        proof {
            lemma_entry_encode(x.number, PRESENT | WRITABLE);
            assert(mmid.store[x.number].len() == 512);
            assert(is_table(mmid, x.number));
        }
        self.write_cell(x.number, 511, selfref);
        proof {
            lemma_wf_after_root_install(m1, mmid, self@, x.number, selfref);
            assert(self@.store[x.number] == zero_table().update(511, selfref));
        }
    }

    /// Repoint the recursive slot of the register's table at the
    /// top-level table in `target` (which must reference itself), and
    /// invalidate every cached translation. Afterwards every mapping
    /// operation works on the hierarchy below `target`, while the
    /// register itself is untouched.
    pub(crate) fn redirect_window(&mut self, target: Frame)
        requires
            wf(old(self)@),
            is_l4(old(self)@, target.number),
            target.number == old(self)@.cr3 || entry_frame(ent(old(self)@, target.number, 511))
                == target.number,
        ensures
            wf(final(self)@),
            final(self)@.cr3 == old(self)@.cr3,
            final(self)@.lvl == old(self)@.lvl,
            final(self)@.store.dom() == old(self)@.store.dom(),
            eff_root(final(self)@) == target.number,
            forall|g: u64, j: u64|
                is_table(old(self)@, g) && j < 512 && !(g == old(self)@.cr3 && j == 511) ==> ent(
                    final(self)@,
                    g,
                    j,
                ) == #[trigger] ent(old(self)@, g, j),
            forall|rr: u64, q: u64|
                is_l4(old(self)@, rr) && user_page(q) ==> #[trigger] resolve_at(
                    final(self)@,
                    rr,
                    q,
                ) == resolve_at(old(self)@, rr, q) && leaf_mapped_at(final(self)@, rr, q)
                    == leaf_mapped_at(old(self)@, rr, q),
            final(self).page_flushes() == old(self).page_flushes(),
            final(self).full_flushes() == (if old(self).full_flushes() < u64::MAX {
                old(self).full_flushes() + 1
            } else {
                0
            }),
    {
        let ghost m1 = self@;
        proof {
            lemma_flag_bits();
        }
        let e = encode_entry(target.number, PRESENT | WRITABLE);
        let root_reg = self.root_register();
        proof {
            lemma_entry_encode(target.number, PRESENT | WRITABLE);
        }
        self.write_cell(root_reg, 511, e);
        self.tlb.flush_all();
        proof {
            lemma_wf_after_redirect(m1, self@, target.number, e);
        }
    }

    /// Write the base-table register: the one operation that changes
    /// what the processor translates through. The new root must hold
    /// its own recursive self-reference.
    pub(crate) fn set_root_register(&mut self, target: Frame)
        requires
            wf(old(self)@),
            is_l4(old(self)@, target.number),
            entry_frame(ent(old(self)@, target.number, 511)) == target.number,
        ensures
            wf(final(self)@),
            final(self)@.cr3 == target.number,
            final(self)@.store == old(self)@.store,
            final(self)@.lvl == old(self)@.lvl,
            eff_root(final(self)@) == target.number,
            forall|rr: u64, q: u64|
                #[trigger] resolve_at(final(self)@, rr, q) == resolve_at(old(self)@, rr, q)
                    && leaf_mapped_at(final(self)@, rr, q) == leaf_mapped_at(old(self)@, rr, q),
            final(self).page_flushes() == old(self).page_flushes(),
            final(self).full_flushes() == old(self).full_flushes(),
    {
        self.root_reg = target.number;
        proof {
            let m2 = self@;
            let m1 = old(self)@;
            assert(m2.store =~= m1.store);
            assert(m2.lvl =~= m1.lvl);
            assert(ent(m2, target.number, 511) == ent(m1, target.number, 511));
            assert(eff_root(m2) == target.number);
            assert forall|f: u64, i: u64|
                is_table(m1, f) && i < 512 implies #[trigger] ent(m2, f, i) == ent(m1, f, i) by {}
            assert forall|f: u64, i: u64| #[trigger] down_slot(m2, f, i) == down_slot(
                m1,
                f,
                i,
            ) by {}
            assert forall|f: u64| #[trigger] is_table(m2, f) implies m2.store[f].len() == 512 && 1
                <= m2.lvl[f] <= 4 && 0 < f < FRAME_LIMIT by {
                assert(is_table(m1, f));
            }
            assert forall|f: u64|
                is_table(m2, f) && #[trigger] m2.lvl[f] == 4 implies entry_present(
                ent(m2, f, 511),
            ) && is_table(m2, entry_frame(ent(m2, f, 511))) && m2.lvl[entry_frame(
                ent(m2, f, 511),
            )] == 4 by {
                assert(ent(m2, f, 511) == ent(m1, f, 511));
            }
            assert forall|f: u64, i: u64|
                is_table(m2, f) && m2.lvl[f] == 4 && i < 511 && entry_present(
                #[trigger] ent(m2, f, i),
            ) implies !entry_huge(ent(m2, f, i)) && is_table(m2, entry_frame(ent(m2, f, i)))
                && m2.lvl[entry_frame(ent(m2, f, i))] == 3 by {
                assert(ent(m2, f, i) == ent(m1, f, i));
                assert(is_table(m1, entry_frame(ent(m1, f, i))));
            }
            assert forall|f: u64, i: u64|
                is_table(m2, f) && (m2.lvl[f] == 3 || m2.lvl[f] == 2) && i < 512 && entry_present(
                #[trigger] ent(m2, f, i),
            ) && !entry_huge(ent(m2, f, i)) implies is_table(m2, entry_frame(ent(m2, f, i)))
                && m2.lvl[entry_frame(ent(m2, f, i))] == m2.lvl[f] - 1 by {
                assert(ent(m2, f, i) == ent(m1, f, i));
                assert(is_table(m1, entry_frame(ent(m1, f, i))));
            }
            assert forall|f: u64, i: u64|
                is_table(m2, f) && i < 512 && entry_present(
                #[trigger] ent(m2, f, i),
            ) implies entry_frame(ent(m2, f, i)) > 0 by {
                assert(ent(m2, f, i) == ent(m1, f, i));
            }
            assert forall|rr: u64, q: u64|
                #[trigger] resolve_at(m2, rr, q) == resolve_at(m1, rr, q) && leaf_mapped_at(
                m2,
                rr,
                q,
            ) == leaf_mapped_at(m1, rr, q) by {}
            assert(wf(m2));
        }
    }
}

/// What descending one level produced: the frame of the sub-table,
/// or the reason there is none.
enum NextTable {
    /// The sub-table stands in this frame.
    Ready(u64),
    /// A huge entry occupies the slot; there is no sub-table.
    HugeBlocked,
    /// The slot was unused and the allocator had no frame left.
    Exhausted,
}

impl ActivePML4 {
    /// Descend from slot `i` of directory table `tf` to the table one
    /// level down, creating it from a freshly allocated, zeroed frame
    /// when the slot is unused. Creation never changes any user-page
    /// translation: the new table starts empty.
    fn create_next<A: crate::frame_alloc::FrameAllocator>(
        &mut self,
        tf: u64,
        i: usize,
        child_level: Ghost<int>,
        alloc: &mut A,
    ) -> (r: NextTable)
        requires
            wf(old(self)@),
            is_table(old(self)@, tf),
            2 <= old(self)@.lvl[tf] <= 4,
            child_level@ == old(self)@.lvl[tf] - 1,
            i < 512,
            old(self)@.lvl[tf] == 4 ==> i < 511,
            crate::frame_alloc::frames_fresh(alloc.avail(), old(self)@.store.dom()),
        ensures
            wf(final(self)@),
            final(self)@.cr3 == old(self)@.cr3,
            eff_root(final(self)@) == eff_root(old(self)@),
            final(alloc).freed() == old(alloc).freed(),
            crate::frame_alloc::frames_fresh(final(alloc).avail(), final(self)@.store.dom()),
            forall|g: u64|
                #[trigger] is_table(old(self)@, g) ==> is_table(final(self)@, g)
                    && final(self)@.lvl[g] == old(self)@.lvl[g],
            forall|g: u64| #[trigger] is_l4(final(self)@, g) == is_l4(old(self)@, g),
            forall|g: u64|
                #[trigger] is_table(final(self)@, g) ==> is_table(old(self)@, g) || old(
                    alloc,
                ).avail().contains(g),
            forall|g: u64, j: u64|
                is_table(old(self)@, g) && j < 512 && !(g == tf && j == i as u64) ==> ent(
                    final(self)@,
                    g,
                    j,
                ) == #[trigger] ent(old(self)@, g, j),
            forall|rr: u64, q: u64|
                is_l4(old(self)@, rr) && user_page(q) ==> #[trigger] resolve_at(
                    final(self)@,
                    rr,
                    q,
                ) == resolve_at(old(self)@, rr, q) && leaf_mapped_at(final(self)@, rr, q)
                    == leaf_mapped_at(old(self)@, rr, q),
            final(self).page_flushes() == old(self).page_flushes(),
            final(self).full_flushes() == old(self).full_flushes(),
            match r {
                NextTable::Ready(c) => {
                    &&& entry_present(ent(final(self)@, tf, i as u64))
                    &&& !entry_huge(ent(final(self)@, tf, i as u64))
                    &&& entry_frame(ent(final(self)@, tf, i as u64)) == c
                    &&& is_table(final(self)@, c)
                    &&& final(self)@.lvl[c] == child_level@
                    &&& if entry_present(ent(old(self)@, tf, i as u64)) {
                        final(alloc).avail() == old(alloc).avail() && final(self)@ == old(self)@
                            && c == entry_frame(ent(old(self)@, tf, i as u64))
                    } else {
                        &&& old(alloc).avail().len() > 0
                        &&& final(alloc).avail() == old(alloc).avail().drop_last()
                        &&& !is_table(old(self)@, c)
                        &&& final(self)@.store.dom() == old(self)@.store.dom().insert(c)
                        &&& final(self)@.store[c] == zero_table()
                    }
                },
                NextTable::HugeBlocked => {
                    &&& final(self)@ == old(self)@
                    &&& final(alloc).avail() == old(alloc).avail()
                    &&& entry_present(ent(old(self)@, tf, i as u64))
                    &&& entry_huge(ent(old(self)@, tf, i as u64))
                },
                NextTable::Exhausted => {
                    &&& final(self)@ == old(self)@
                    &&& final(alloc).avail() == old(alloc).avail()
                    &&& old(alloc).avail().len() == 0
                    &&& !entry_present(ent(old(self)@, tf, i as u64))
                },
            },
    {
        let ghost m1 = self@;
        let e = self.read_cell(tf, i);
        if e_present(e) {
            if e_huge(e) {
                return NextTable::HugeBlocked;
            }
            let c = decode_frame(e);
            proof {
                assert(ent(m1, tf, i as u64) == e);
            }
            NextTable::Ready(c)
        } else {
            match alloc.allocate() {
                None => NextTable::Exhausted,
                Some(fr) => {
                    let c = fr.number;
                    proof {
                        crate::frame_alloc::lemma_fresh_after_allocate(
                            old(alloc).avail(),
                            m1.store.dom(),
                        );
                        assert(0 < c < FRAME_LIMIT && !is_table(m1, c));
                    }
                    self.install_table(c, child_level);
                    let ghost mmid = self@;
                    proof {
                        lemma_wf_after_install(m1, mmid, c, child_level@);
                        lemma_flag_bits();
                    }
                    let newent = encode_entry(c, PRESENT | WRITABLE);
                    proof {
                        lemma_entry_encode(c, PRESENT | WRITABLE);
                    }
                    self.write_cell(tf, i, newent);
                    let ghost m2 = self@;
                    proof {
                        lemma_wf_after_link(m1, mmid, m2, tf, i as u64, c, child_level@, newent);
                        assert forall|rr: u64, q: u64|
                            is_l4(m1, rr) && user_page(q) implies #[trigger] resolve_at(m2, rr, q)
                            == resolve_at(m1, rr, q) && leaf_mapped_at(m2, rr, q)
                            == leaf_mapped_at(m1, rr, q) by {
                            lemma_fresh_table(m1, mmid, c, child_level@, rr, q);
                            lemma_link_zero_walk(m1, mmid, m2, tf, i as u64, c, newent, rr, q);
                        }
                        assert(final(alloc).avail() =~= old(alloc).avail().drop_last());
                        assert(m2.store.dom() =~= m1.store.dom().insert(c));
                        assert(old(alloc).avail()[old(alloc).avail().len() - 1] == c);
                        assert(old(alloc).avail().contains(c));
                        assert forall|g: u64| #[trigger] is_table(m2, g) implies is_table(m1, g)
                            || old(alloc).avail().contains(g) by {}
                        assert forall|g: u64| #[trigger] is_l4(m2, g) == is_l4(m1, g) by {
                            if is_l4(m2, g) && !is_table(m1, g) {
                                assert(g == c);
                                assert(m2.lvl[c] == child_level@);
                            }
                        }
                    }
                    NextTable::Ready(c)
                },
            }
        }
    }
}

/// The top-level slot of a page number, as an array index.
fn page_idx4(vpn: u64) -> (r: usize)
    ensures
        r == idx4(vpn),
        r < 512,
{
    proof {
        lemma_idx_bounds(vpn);
    }
    ((vpn >> 27) & 0x1ff) as usize
}

/// The upper-directory slot of a page number, as an array index.
fn page_idx3(vpn: u64) -> (r: usize)
    ensures
        r == idx3(vpn),
        r < 512,
{
    proof {
        lemma_idx_bounds(vpn);
    }
    ((vpn >> 18) & 0x1ff) as usize
}

/// The middle-directory slot of a page number, as an array index.
fn page_idx2(vpn: u64) -> (r: usize)
    ensures
        r == idx2(vpn),
        r < 512,
{
    proof {
        lemma_idx_bounds(vpn);
    }
    ((vpn >> 9) & 0x1ff) as usize
}

/// The leaf slot of a page number, as an array index.
fn page_idx1(vpn: u64) -> (r: usize)
    ensures
        r == idx1(vpn),
        r < 512,
{
    proof {
        lemma_idx_bounds(vpn);
    }
    (vpn & 0x1ff) as usize
}

/// Whether an entry takes part in translation.
fn e_present(e: u64) -> (r: bool)
    ensures
        r == entry_present(e),
{
    e & PRESENT == PRESENT
}

/// Whether an entry maps a huge region.
fn e_huge(e: u64) -> (r: bool)
    ensures
        r == entry_huge(e),
{
    e & HUGE == HUGE
}

} // verus!
