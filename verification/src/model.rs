//! The specification-level model of the paging machine.
//!
//! The machine is a set of physical frames holding page tables, plus
//! the base-table register. Translation is a four-step walk from a
//! top-level table: each step reads one entry, selected by nine bits
//! of the page number. The walk here is the reference against which
//! every mapping operation is verified.

use vstd::prelude::*;
use crate::entry::{entry_present, entry_huge, entry_frame, entry_flags, lemma_entry_bounds, FRAME_LIMIT};

verus! {

/// The machine state the paging core works on: the table frames (by
/// frame number), the hierarchy level of each table frame (4 for the
/// top level down to 1 for the leaf level), and the frame the
/// base-table register holds.
pub ghost struct MachineModel {
    /// The contents of every frame that holds a page table.
    pub store: Map<u64, Seq<u64>>,
    /// The hierarchy level of every table frame.
    pub lvl: Map<u64, int>,
    /// The frame number in the base-table register.
    pub cr3: u64,
}

/// Slot selected at the top level by a page number (bits 27..=35).
pub open spec fn idx4(vpn: u64) -> u64 {
    (vpn >> 27) & 0x1ff
}

/// Slot selected in the upper directory by a page number (bits 18..=26).
pub open spec fn idx3(vpn: u64) -> u64 {
    (vpn >> 18) & 0x1ff
}

/// Slot selected in the middle directory by a page number (bits 9..=17).
pub open spec fn idx2(vpn: u64) -> u64 {
    (vpn >> 9) & 0x1ff
}

/// Slot selected in the leaf table by a page number (bits 0..=8).
pub open spec fn idx1(vpn: u64) -> u64 {
    vpn & 0x1ff
}

/// A page number the mapping operations accept: within the 48-bit
/// translated range, and outside the top-level slot reserved for the
/// recursive self-mapping.
pub open spec fn user_page(vpn: u64) -> bool {
    vpn < 0x10_0000_0000 && idx4(vpn) != 511
}

/// The entry at slot `i` of the table in frame `f`.
pub open spec fn ent(m: MachineModel, f: u64, i: u64) -> u64 {
    m.store[f][i as int]
}

/// The frame the active table's recursive slot references: the root
/// every software table walk goes through. While an inactive table is
/// being edited this differs from the register's own frame.
pub open spec fn eff_root(m: MachineModel) -> u64 {
    entry_frame(ent(m, m.cr3, 511))
}

/// The top-level entry of the walk for `vpn` from root `r`.
pub open spec fn l4e(m: MachineModel, r: u64, vpn: u64) -> u64 {
    ent(m, r, idx4(vpn))
}

/// The upper-directory frame of the walk.
pub open spec fn t3f(m: MachineModel, r: u64, vpn: u64) -> u64 {
    entry_frame(l4e(m, r, vpn))
}

/// The upper-directory entry of the walk.
pub open spec fn l3e(m: MachineModel, r: u64, vpn: u64) -> u64 {
    ent(m, t3f(m, r, vpn), idx3(vpn))
}

/// The middle-directory frame of the walk.
pub open spec fn t2f(m: MachineModel, r: u64, vpn: u64) -> u64 {
    entry_frame(l3e(m, r, vpn))
}

/// The middle-directory entry of the walk.
pub open spec fn l2e(m: MachineModel, r: u64, vpn: u64) -> u64 {
    ent(m, t2f(m, r, vpn), idx2(vpn))
}

/// The leaf-table frame of the walk.
pub open spec fn t1f(m: MachineModel, r: u64, vpn: u64) -> u64 {
    entry_frame(l2e(m, r, vpn))
}

/// The leaf entry of the walk.
pub open spec fn l1e(m: MachineModel, r: u64, vpn: u64) -> u64 {
    ent(m, t1f(m, r, vpn), idx1(vpn))
}

/// The translation of page `vpn` through the hierarchy rooted at `r`:
/// the frame number it maps to together with the flag bits of the
/// mapping, or nothing. A present huge entry one or two levels above
/// the leaf terminates the walk early; the residual low indices then
/// select the frame within the huge region.
pub open spec fn resolve_at(m: MachineModel, r: u64, vpn: u64) -> Option<(u64, u64)> {
    if !entry_present(l4e(m, r, vpn)) {
        None
    } else if !entry_present(l3e(m, r, vpn)) {
        None
    } else if entry_huge(l3e(m, r, vpn)) {
        Some(
            (
                (entry_frame(l3e(m, r, vpn)) + 512 * idx2(vpn) + idx1(vpn)) as u64,
                entry_flags(l3e(m, r, vpn)),
            ),
        )
    } else if !entry_present(l2e(m, r, vpn)) {
        None
    } else if entry_huge(l2e(m, r, vpn)) {
        Some(((entry_frame(l2e(m, r, vpn)) + idx1(vpn)) as u64, entry_flags(l2e(m, r, vpn))))
    } else if !entry_present(l1e(m, r, vpn)) {
        None
    } else {
        Some((entry_frame(l1e(m, r, vpn)), entry_flags(l1e(m, r, vpn))))
    }
}

/// The translation of page `vpn` through the software window: the walk
/// rooted at the frame the recursive slot references.
pub open spec fn resolve(m: MachineModel, vpn: u64) -> Option<(u64, u64)> {
    resolve_at(m, eff_root(m), vpn)
}

/// Page `vpn` is mapped through a full four-level walk (no huge entry)
/// rooted at `r`.
pub open spec fn leaf_mapped_at(m: MachineModel, r: u64, vpn: u64) -> bool {
    &&& entry_present(l4e(m, r, vpn))
    &&& entry_present(l3e(m, r, vpn)) && !entry_huge(l3e(m, r, vpn))
    &&& entry_present(l2e(m, r, vpn)) && !entry_huge(l2e(m, r, vpn))
    &&& entry_present(l1e(m, r, vpn))
}

/// What a `map` of page `vpn` under root `r` will run into, before any
/// directory is created: `-2` for a huge entry in the way, `-1` for a
/// leaf entry already in use, and otherwise the number of missing
/// directories (0 to 3) that must be allocated first.
pub open spec fn map_plan(m: MachineModel, r: u64, vpn: u64) -> int {
    if !entry_present(l4e(m, r, vpn)) {
        3
    } else if !entry_present(l3e(m, r, vpn)) {
        2
    } else if entry_huge(l3e(m, r, vpn)) {
        -2
    } else if !entry_present(l2e(m, r, vpn)) {
        1
    } else if entry_huge(l2e(m, r, vpn)) {
        -2
    } else if !entry_present(l1e(m, r, vpn)) {
        0
    } else {
        -1
    }
}

/// Frame `f` holds a table of the machine.
pub open spec fn is_table(m: MachineModel, f: u64) -> bool {
    m.store.dom().contains(f)
}

/// Frame `f` holds a top-level table.
pub open spec fn is_l4(m: MachineModel, f: u64) -> bool {
    is_table(m, f) && m.lvl[f] == 4
}

/// Slot `i` of table `f` references a sub-table one level down: a
/// present, non-huge entry of a directory-level table, outside the
/// recursive slot of a top-level table.
pub open spec fn down_slot(m: MachineModel, f: u64, i: u64) -> bool {
    &&& is_table(m, f)
    &&& i < 512
    &&& (m.lvl[f] == 4 ==> i < 511)
    &&& 2 <= m.lvl[f] <= 4
    &&& entry_present(ent(m, f, i))
    &&& !entry_huge(ent(m, f, i))
}

/// The machine invariant.
///
/// Levels and domains agree; every table has 512 entries; the register
/// points at a top-level table; every top-level table's slot 511
/// references a top-level table, and the one the register routes
/// through references itself (the recursive self-mapping); directory
/// entries reference tables exactly one level down; present entries
/// reference non-zero frames; and every sub-table is referenced by
/// exactly one directory slot, so distinct walks never share a table
/// below the top level.
pub open spec fn wf(m: MachineModel) -> bool {
    &&& m.lvl.dom() == m.store.dom()
    &&& forall|f: u64| is_table(m, f) ==> (#[trigger] m.store[f]).len() == 512
    &&& forall|f: u64| is_table(m, f) ==> 1 <= #[trigger] m.lvl[f] <= 4
    &&& forall|f: u64| #[trigger] is_table(m, f) ==> 0 < f < FRAME_LIMIT
    &&& is_table(m, m.cr3) && m.lvl[m.cr3] == 4
    &&& forall|f: u64|
        is_table(m, f) && #[trigger] m.lvl[f] == 4 ==> entry_present(ent(m, f, 511)) && is_table(
            m,
            entry_frame(ent(m, f, 511)),
        ) && m.lvl[entry_frame(ent(m, f, 511))] == 4
    &&& entry_frame(ent(m, eff_root(m), 511)) == eff_root(m)
    &&& forall|f: u64, i: u64|
        is_table(m, f) && m.lvl[f] == 4 && i < 511 && entry_present(#[trigger] ent(m, f, i))
            ==> !entry_huge(ent(m, f, i)) && is_table(m, entry_frame(ent(m, f, i))) && m.lvl[entry_frame(
            ent(m, f, i),
        )] == 3
    &&& forall|f: u64, i: u64|
        is_table(m, f) && (m.lvl[f] == 3 || m.lvl[f] == 2) && i < 512 && entry_present(
            #[trigger] ent(m, f, i),
        ) && !entry_huge(ent(m, f, i)) ==> is_table(m, entry_frame(ent(m, f, i))) && m.lvl[entry_frame(
            ent(m, f, i),
        )] == m.lvl[f] - 1
    &&& forall|f: u64, i: u64|
        is_table(m, f) && i < 512 && entry_present(#[trigger] ent(m, f, i)) ==> entry_frame(
            ent(m, f, i),
        ) > 0
    &&& forall|f1: u64, i1: u64, f2: u64, i2: u64|
        #![trigger down_slot(m, f1, i1), down_slot(m, f2, i2)]
        down_slot(m, f1, i1) && down_slot(m, f2, i2) && entry_frame(ent(m, f1, i1)) == entry_frame(
            ent(m, f2, i2),
        ) ==> f1 == f2 && i1 == i2
}

/// The walk for `vpn` from root `r` reads the cell at slot `ti` of
/// table `tf` (at whichever of its four steps).
pub open spec fn walk_reads(m: MachineModel, r: u64, vpn: u64, tf: u64, ti: u64) -> bool {
    ||| (r == tf && idx4(vpn) == ti)
    ||| (entry_present(l4e(m, r, vpn)) && t3f(m, r, vpn) == tf && idx3(vpn) == ti)
    ||| (entry_present(l4e(m, r, vpn)) && entry_present(l3e(m, r, vpn)) && !entry_huge(
        l3e(m, r, vpn),
    ) && t2f(m, r, vpn) == tf && idx2(vpn) == ti)
    ||| (entry_present(l4e(m, r, vpn)) && entry_present(l3e(m, r, vpn)) && !entry_huge(
        l3e(m, r, vpn),
    ) && entry_present(l2e(m, r, vpn)) && !entry_huge(l2e(m, r, vpn)) && t1f(m, r, vpn) == tf
        && idx1(vpn) == ti)
}

/// The machine after overwriting one cell: slot `ti` of table `tf`
/// now holds `nv`; levels and the register are unchanged.
pub open spec fn cell_written(m1: MachineModel, m2: MachineModel, tf: u64, ti: u64, nv: u64) -> bool {
    &&& m1.store.dom().contains(tf)
    &&& ti < 512
    &&& m2.store == m1.store.insert(tf, m1.store[tf].update(ti as int, nv))
    &&& m2.lvl == m1.lvl
    &&& m2.cr3 == m1.cr3
}

/// Under the invariant, the tables a user-page walk passes through sit
/// at levels 3, 2 and 1 in turn.
pub proof fn lemma_walk_frames(m: MachineModel, r: u64, vpn: u64)
    requires
        wf(m),
        is_l4(m, r),
        user_page(vpn),
    ensures
        entry_present(l4e(m, r, vpn)) ==> is_table(m, t3f(m, r, vpn)) && m.lvl[t3f(m, r, vpn)]
            == 3 && !entry_huge(l4e(m, r, vpn)),
        entry_present(l4e(m, r, vpn)) && entry_present(l3e(m, r, vpn)) && !entry_huge(
            l3e(m, r, vpn),
        ) ==> is_table(m, t2f(m, r, vpn)) && m.lvl[t2f(m, r, vpn)] == 2,
        entry_present(l4e(m, r, vpn)) && entry_present(l3e(m, r, vpn)) && !entry_huge(
            l3e(m, r, vpn),
        ) && entry_present(l2e(m, r, vpn)) && !entry_huge(l2e(m, r, vpn)) ==> is_table(
            m,
            t1f(m, r, vpn),
        ) && m.lvl[t1f(m, r, vpn)] == 1,
{
    lemma_idx_bounds(vpn);
    assert(idx4(vpn) < 511);
    if entry_present(l4e(m, r, vpn)) {
        assert(ent(m, r, idx4(vpn)) == l4e(m, r, vpn));
    }
}

/// A walk that does not read the overwritten cell translates exactly
/// as before.
pub proof fn lemma_untouched_walk(
    m1: MachineModel,
    m2: MachineModel,
    tf: u64,
    ti: u64,
    nv: u64,
    r: u64,
    vpn: u64,
)
    requires
        wf(m1),
        is_l4(m1, r),
        user_page(vpn),
        cell_written(m1, m2, tf, ti, nv),
        !walk_reads(m1, r, vpn, tf, ti),
    ensures
        resolve_at(m2, r, vpn) == resolve_at(m1, r, vpn),
        leaf_mapped_at(m2, r, vpn) == leaf_mapped_at(m1, r, vpn),
        map_plan(m2, r, vpn) == map_plan(m1, r, vpn),
{
    lemma_idx_bounds(vpn);
    lemma_walk_frames(m1, r, vpn);
    assert(m1.store[tf].len() == 512);
    assert(l4e(m2, r, vpn) == l4e(m1, r, vpn));
    if entry_present(l4e(m1, r, vpn)) {
        assert(l3e(m2, r, vpn) == l3e(m1, r, vpn));
        if entry_present(l3e(m1, r, vpn)) && !entry_huge(l3e(m1, r, vpn)) {
            assert(l2e(m2, r, vpn) == l2e(m1, r, vpn));
            if entry_present(l2e(m1, r, vpn)) && !entry_huge(l2e(m1, r, vpn)) {
                assert(l1e(m2, r, vpn) == l1e(m1, r, vpn));
            }
        }
    }
}

/// Adding a fresh, all-zero table frame leaves every user-page walk
/// from every existing top-level table unchanged.
pub proof fn lemma_fresh_table(
    m1: MachineModel,
    m2: MachineModel,
    nf: u64,
    level: int,
    r: u64,
    vpn: u64,
)
    requires
        wf(m1),
        is_l4(m1, r),
        user_page(vpn),
        !m1.store.dom().contains(nf),
        m2.store == m1.store.insert(nf, crate::table::zero_table()),
        m2.lvl == m1.lvl.insert(nf, level),
        m2.cr3 == m1.cr3,
    ensures
        resolve_at(m2, r, vpn) == resolve_at(m1, r, vpn),
        leaf_mapped_at(m2, r, vpn) == leaf_mapped_at(m1, r, vpn),
        map_plan(m2, r, vpn) == map_plan(m1, r, vpn),
{
    lemma_idx_bounds(vpn);
    lemma_walk_frames(m1, r, vpn);
    assert(l4e(m2, r, vpn) == l4e(m1, r, vpn));
    if entry_present(l4e(m1, r, vpn)) {
        assert(t3f(m1, r, vpn) != nf);
        assert(l3e(m2, r, vpn) == l3e(m1, r, vpn));
        if entry_present(l3e(m1, r, vpn)) && !entry_huge(l3e(m1, r, vpn)) {
            assert(t2f(m1, r, vpn) != nf);
            assert(l2e(m2, r, vpn) == l2e(m1, r, vpn));
            if entry_present(l2e(m1, r, vpn)) && !entry_huge(l2e(m1, r, vpn)) {
                assert(t1f(m1, r, vpn) != nf);
                assert(l1e(m2, r, vpn) == l1e(m1, r, vpn));
            }
        }
    }
}

/// Two user-page walks that reach the same leaf table come from the
/// same root and agree on their three directory indices: each
/// sub-table has a single referencing slot, so the paths coincide.
pub proof fn lemma_same_path(m: MachineModel, r1: u64, p: u64, r2: u64, q: u64)
    requires
        wf(m),
        is_l4(m, r1),
        is_l4(m, r2),
        user_page(p),
        user_page(q),
        entry_present(l4e(m, r1, p)),
        entry_present(l3e(m, r1, p)),
        !entry_huge(l3e(m, r1, p)),
        entry_present(l2e(m, r1, p)),
        !entry_huge(l2e(m, r1, p)),
        entry_present(l4e(m, r2, q)),
        entry_present(l3e(m, r2, q)),
        !entry_huge(l3e(m, r2, q)),
        entry_present(l2e(m, r2, q)),
        !entry_huge(l2e(m, r2, q)),
        t1f(m, r2, q) == t1f(m, r1, p),
    ensures
        r2 == r1,
        idx4(q) == idx4(p),
        idx3(q) == idx3(p),
        idx2(q) == idx2(p),
        t3f(m, r2, q) == t3f(m, r1, p),
        t2f(m, r2, q) == t2f(m, r1, p),
{
    lemma_idx_bounds(p);
    lemma_idx_bounds(q);
    lemma_walk_frames(m, r1, p);
    lemma_walk_frames(m, r2, q);
    assert(down_slot(m, t2f(m, r1, p), idx2(p)));
    assert(down_slot(m, t2f(m, r2, q), idx2(q)));
    assert(t2f(m, r2, q) == t2f(m, r1, p) && idx2(q) == idx2(p));
    assert(down_slot(m, t3f(m, r1, p), idx3(p)));
    assert(down_slot(m, t3f(m, r2, q), idx3(q)));
    assert(t3f(m, r2, q) == t3f(m, r1, p) && idx3(q) == idx3(p));
    assert(down_slot(m, r1, idx4(p)));
    assert(down_slot(m, r2, idx4(q)));
    assert(r2 == r1 && idx4(q) == idx4(p));
}

/// Overwriting a leaf-table entry keeps the machine invariant: leaf
/// entries never reference sub-tables.
pub proof fn lemma_wf_after_leaf_write(
    m1: MachineModel,
    m2: MachineModel,
    tf: u64,
    ti: u64,
    nv: u64,
)
    requires
        wf(m1),
        is_table(m1, tf),
        m1.lvl[tf] == 1,
        ti < 512,
        cell_written(m1, m2, tf, ti, nv),
        entry_present(nv) ==> entry_frame(nv) > 0,
    ensures
        wf(m2),
        m2.cr3 == m1.cr3,
        m2.lvl == m1.lvl,
        m2.store.dom() == m1.store.dom(),
        eff_root(m2) == eff_root(m1),
        ent(m2, tf, ti) == nv,
        forall|g: u64, j: u64|
            is_table(m1, g) && j < 512 && !(g == tf && j == ti) ==> ent(m2, g, j)
                == #[trigger] ent(m1, g, j),
{
    assert(m2.store.dom() =~= m1.store.dom());
    assert(m2.lvl.dom() =~= m2.store.dom());
    assert(ent(m2, tf, ti) == nv);
    assert forall|g: u64, j: u64|
        is_table(m1, g) && j < 512 && !(g == tf && j == ti) implies ent(m2, g, j)
        == #[trigger] ent(m1, g, j) by {
        if g == tf {
            assert(m2.store[g] == m1.store[tf].update(ti as int, nv));
        }
    }
    assert forall|f: u64| #[trigger] is_table(m2, f) implies 1 <= m2.lvl[f] <= 4 && 0 < f
        < FRAME_LIMIT by {
        assert(is_table(m1, f));
    }
    assert(tf != m2.cr3);
    assert(ent(m2, m2.cr3, 511) == ent(m1, m1.cr3, 511));
    assert(eff_root(m2) == eff_root(m1));
    assert(ent(m2, eff_root(m2), 511) == ent(m1, eff_root(m1), 511));
    assert forall|f: u64| #[trigger] is_table(m2, f) implies m2.store[f].len() == 512 by {
        if f == tf {
            assert(m2.store[f] == m1.store[tf].update(ti as int, nv));
        }
    }
    assert forall|f: u64|
        is_table(m2, f) && #[trigger] m2.lvl[f] == 4 implies entry_present(ent(m2, f, 511))
        && is_table(m2, entry_frame(ent(m2, f, 511))) && m2.lvl[entry_frame(ent(m2, f, 511))]
        == 4 by {
        assert(f != tf);
        assert(ent(m2, f, 511) == ent(m1, f, 511));
    }
    assert forall|f: u64, i: u64|
        is_table(m2, f) && m2.lvl[f] == 4 && i < 511 && entry_present(
        #[trigger] ent(m2, f, i),
    ) implies !entry_huge(ent(m2, f, i)) && is_table(m2, entry_frame(ent(m2, f, i)))
        && m2.lvl[entry_frame(ent(m2, f, i))] == 3 by {
        assert(f != tf);
        assert(ent(m2, f, i) == ent(m1, f, i));
        assert(is_table(m1, entry_frame(ent(m1, f, i))));
    }
    assert forall|f: u64, i: u64|
        is_table(m2, f) && (m2.lvl[f] == 3 || m2.lvl[f] == 2) && i < 512 && entry_present(
        #[trigger] ent(m2, f, i),
    ) && !entry_huge(ent(m2, f, i)) implies is_table(m2, entry_frame(ent(m2, f, i)))
        && m2.lvl[entry_frame(ent(m2, f, i))] == m2.lvl[f] - 1 by {
        assert(f != tf);
        assert(ent(m2, f, i) == ent(m1, f, i));
        assert(is_table(m1, entry_frame(ent(m1, f, i))));
    }
    assert forall|f: u64, i: u64|
        is_table(m2, f) && i < 512 && entry_present(#[trigger] ent(m2, f, i)) implies entry_frame(
        ent(m2, f, i),
    ) > 0 by {
        if !(f == tf && i == ti) {
            assert(ent(m2, f, i) == ent(m1, f, i));
        }
    }
    assert forall|f: u64, i: u64| #[trigger] down_slot(m2, f, i) implies down_slot(m1, f, i)
        && ent(m2, f, i) == ent(m1, f, i) by {
        assert(f != tf);
    }
    assert forall|f1: u64, i1: u64, f2: u64, i2: u64|
        down_slot(m2, f1, i1) && down_slot(m2, f2, i2) && entry_frame(ent(m2, f1, i1))
            == entry_frame(ent(m2, f2, i2)) implies f1 == f2 && i1 == i2 by {
        assert(down_slot(m1, f1, i1) && down_slot(m1, f2, i2));
    }
    assert(wf(m2));
}

/// Installing a fresh all-zero table in an unused frame keeps the
/// machine invariant; no existing cell changes.
pub proof fn lemma_wf_after_install(m1: MachineModel, m2: MachineModel, c: u64, level: int)
    requires
        wf(m1),
        !m1.store.dom().contains(c),
        0 < c < FRAME_LIMIT,
        1 <= level <= 3,
        m2.store == m1.store.insert(c, crate::table::zero_table()),
        m2.lvl == m1.lvl.insert(c, level),
        m2.cr3 == m1.cr3,
    ensures
        wf(m2),
        eff_root(m2) == eff_root(m1),
        forall|g: u64|
            #[trigger] is_table(m1, g) ==> is_table(m2, g) && m2.lvl[g] == m1.lvl[g],
        forall|g: u64, j: u64|
            is_table(m1, g) && j < 512 ==> ent(m2, g, j) == #[trigger] ent(m1, g, j),
{
    assert(m2.lvl.dom() =~= m2.store.dom());
    assert(forall|j: int| 0 <= j < 512 ==> crate::table::zero_table()[j] == 0u64);
    lemma_entry_bounds(0u64);
    assert(eff_root(m2) == eff_root(m1));
    assert forall|f: u64| #[trigger] is_table(m2, f) implies m2.store[f].len() == 512 && 1
        <= m2.lvl[f] <= 4 && 0 < f < FRAME_LIMIT by {
        if f != c {
            assert(is_table(m1, f));
        }
    }
    assert forall|f: u64|
        is_table(m2, f) && #[trigger] m2.lvl[f] == 4 implies entry_present(ent(m2, f, 511))
        && is_table(m2, entry_frame(ent(m2, f, 511))) && m2.lvl[entry_frame(ent(m2, f, 511))]
        == 4 by {
        assert(f != c);
        assert(is_table(m1, f) && m1.lvl[f] == 4);
        assert(ent(m2, f, 511) == ent(m1, f, 511));
        assert(is_table(m1, entry_frame(ent(m1, f, 511))));
    }
    assert forall|f: u64, i: u64|
        is_table(m2, f) && m2.lvl[f] == 4 && i < 511 && entry_present(
        #[trigger] ent(m2, f, i),
    ) implies !entry_huge(ent(m2, f, i)) && is_table(m2, entry_frame(ent(m2, f, i)))
        && m2.lvl[entry_frame(ent(m2, f, i))] == 3 by {
        assert(f != c);
        assert(is_table(m1, f));
        assert(ent(m2, f, i) == ent(m1, f, i));
        assert(is_table(m1, entry_frame(ent(m1, f, i))));
    }
    assert forall|f: u64, i: u64|
        is_table(m2, f) && (m2.lvl[f] == 3 || m2.lvl[f] == 2) && i < 512 && entry_present(
        #[trigger] ent(m2, f, i),
    ) && !entry_huge(ent(m2, f, i)) implies is_table(m2, entry_frame(ent(m2, f, i)))
        && m2.lvl[entry_frame(ent(m2, f, i))] == m2.lvl[f] - 1 by {
        if f == c {
            assert(ent(m2, f, i) == 0u64);
            assert(false);
        }
        assert(is_table(m1, f));
        assert(ent(m2, f, i) == ent(m1, f, i));
        assert(is_table(m1, entry_frame(ent(m1, f, i))));
    }
    assert forall|f: u64, i: u64|
        is_table(m2, f) && i < 512 && entry_present(#[trigger] ent(m2, f, i)) implies entry_frame(
        ent(m2, f, i),
    ) > 0 by {
        if f == c {
            assert(ent(m2, f, i) == 0u64);
            assert(false);
        }
        assert(is_table(m1, f));
        assert(ent(m2, f, i) == ent(m1, f, i));
    }
    assert forall|f: u64, i: u64| #[trigger] down_slot(m2, f, i) implies down_slot(m1, f, i)
        && ent(m2, f, i) == ent(m1, f, i) by {
        if f == c {
            assert(ent(m2, f, i) == 0u64);
        }
    }
    assert forall|f1: u64, i1: u64, f2: u64, i2: u64|
        down_slot(m2, f1, i1) && down_slot(m2, f2, i2) && entry_frame(ent(m2, f1, i1))
            == entry_frame(ent(m2, f2, i2)) implies f1 == f2 && i1 == i2 by {
        assert(down_slot(m1, f1, i1) && down_slot(m1, f2, i2));
    }
    assert(wf(m2));
}

/// Writing a directory entry that links a previously unused slot to a
/// fresh zeroed table keeps the machine invariant. `m1` is the state
/// before the table was installed, `mmid` the state with the table
/// installed, `m2` the state with the slot linked.
pub proof fn lemma_wf_after_link(
    m1: MachineModel,
    mmid: MachineModel,
    m2: MachineModel,
    tf: u64,
    ti: u64,
    c: u64,
    level: int,
    nv: u64,
)
    requires
        wf(m1),
        wf(mmid),
        is_table(m1, tf),
        2 <= m1.lvl[tf] <= 4,
        level == m1.lvl[tf] - 1,
        ti < 512,
        m1.lvl[tf] == 4 ==> ti < 511,
        !entry_present(ent(m1, tf, ti)),
        !m1.store.dom().contains(c),
        0 < c < FRAME_LIMIT,
        mmid.store == m1.store.insert(c, crate::table::zero_table()),
        mmid.lvl == m1.lvl.insert(c, level),
        mmid.cr3 == m1.cr3,
        cell_written(mmid, m2, tf, ti, nv),
        entry_present(nv),
        !entry_huge(nv),
        entry_frame(nv) == c,
    ensures
        wf(m2),
        eff_root(m2) == eff_root(m1),
        m2.cr3 == m1.cr3,
        m2.lvl == mmid.lvl,
        m2.store.dom() == mmid.store.dom(),
        forall|g: u64|
            #[trigger] is_table(m1, g) ==> is_table(m2, g) && m2.lvl[g] == m1.lvl[g],
        forall|g: u64, j: u64|
            is_table(m1, g) && j < 512 && !(g == tf && j == ti) ==> ent(m2, g, j)
                == #[trigger] ent(m1, g, j),
        ent(m2, tf, ti) == nv,
        is_table(m2, c),
        m2.lvl[c] == level,
        m2.store[c] == crate::table::zero_table(),
    {
    lemma_wf_after_install(m1, mmid, c, level);
    assert(m2.store.dom() =~= mmid.store.dom());
    assert(m2.lvl.dom() =~= m2.store.dom());
    assert(ent(m2, tf, ti) == nv);
    // every cell but (tf, ti) carries over from mmid
    assert forall|g: u64, j: u64|
        is_table(mmid, g) && j < 512 && !(g == tf && j == ti) implies ent(m2, g, j)
        == #[trigger] ent(mmid, g, j) by {
        if g == tf {
            assert(m2.store[g] == mmid.store[tf].update(ti as int, nv));
        }
    }
    assert(m2.store[c] == crate::table::zero_table());
    assert(forall|j: int| 0 <= j < 512 ==> crate::table::zero_table()[j] == 0u64);
    lemma_entry_bounds(0u64);
    // the written cell is never a slot 511 of a top-level table
    assert(mmid.lvl[tf] == 4 ==> ti < 511);
    assert(mmid.lvl[tf] != 4 ==> tf != m2.cr3);
    assert(ent(m2, m2.cr3, 511) == ent(mmid, mmid.cr3, 511));
    assert(eff_root(m2) == eff_root(mmid));
    assert(ent(m2, eff_root(m2), 511) == ent(mmid, eff_root(mmid), 511));
    assert(entry_frame(ent(m2, eff_root(m2), 511)) == eff_root(m2));
    assert forall|f: u64| #[trigger] is_table(m2, f) implies m2.store[f].len() == 512 && 1
        <= m2.lvl[f] <= 4 && 0 < f < FRAME_LIMIT by {
        assert(is_table(mmid, f));
        if f == tf {
            assert(m2.store[f] == mmid.store[tf].update(ti as int, nv));
        }
    }
    assert forall|f: u64|
        is_table(m2, f) && #[trigger] m2.lvl[f] == 4 implies entry_present(ent(m2, f, 511))
        && is_table(m2, entry_frame(ent(m2, f, 511))) && m2.lvl[entry_frame(ent(m2, f, 511))]
        == 4 by {
        assert(is_table(mmid, f) && mmid.lvl[f] == 4);
        assert(ent(m2, f, 511) == ent(mmid, f, 511));
    }
    assert forall|f: u64, i: u64|
        is_table(m2, f) && m2.lvl[f] == 4 && i < 511 && entry_present(
        #[trigger] ent(m2, f, i),
    ) implies !entry_huge(ent(m2, f, i)) && is_table(m2, entry_frame(ent(m2, f, i)))
        && m2.lvl[entry_frame(ent(m2, f, i))] == 3 by {
        if f == tf && i == ti {
            assert(ent(m2, f, i) == nv);
            assert(entry_frame(nv) == c && is_table(m2, c) && m2.lvl[c] == level);
        } else {
            assert(is_table(mmid, f));
            assert(ent(m2, f, i) == ent(mmid, f, i));
            assert(is_table(mmid, entry_frame(ent(mmid, f, i))));
        }
    }
    assert forall|f: u64, i: u64|
        is_table(m2, f) && (m2.lvl[f] == 3 || m2.lvl[f] == 2) && i < 512 && entry_present(
        #[trigger] ent(m2, f, i),
    ) && !entry_huge(ent(m2, f, i)) implies is_table(m2, entry_frame(ent(m2, f, i)))
        && m2.lvl[entry_frame(ent(m2, f, i))] == m2.lvl[f] - 1 by {
        if f == tf && i == ti {
            assert(ent(m2, f, i) == nv);
            assert(entry_frame(nv) == c && is_table(m2, c) && m2.lvl[c] == level);
        } else {
            assert(is_table(mmid, f));
            assert(ent(m2, f, i) == ent(mmid, f, i));
            assert(is_table(mmid, entry_frame(ent(mmid, f, i))));
        }
    }
    assert forall|f: u64, i: u64|
        is_table(m2, f) && i < 512 && entry_present(#[trigger] ent(m2, f, i)) implies entry_frame(
        ent(m2, f, i),
    ) > 0 by {
        if f == tf && i == ti {
            assert(entry_frame(ent(m2, f, i)) == c);
        } else {
            assert(is_table(mmid, f));
            assert(ent(m2, f, i) == ent(mmid, f, i));
        }
    }
    // old slots never reference the fresh frame
    assert forall|g: u64, j: u64|
        down_slot(m2, g, j) && !(g == tf && j == ti) implies down_slot(mmid, g, j) && ent(
        m2,
        g,
        j,
    ) == ent(mmid, g, j) && entry_frame(ent(mmid, g, j)) != c by {
        assert(ent(m2, g, j) == ent(mmid, g, j));
        if g == c {
            assert(ent(mmid, g, j) == 0u64);
            assert(false);
        }
        assert(is_table(m1, g));
        assert(ent(mmid, g, j) == ent(m1, g, j));
        assert(down_slot(m1, g, j));
        assert(is_table(m1, entry_frame(ent(m1, g, j))));
    }
    assert(down_slot(m2, tf, ti));
    assert forall|f1: u64, i1: u64, f2: u64, i2: u64|
        down_slot(m2, f1, i1) && down_slot(m2, f2, i2) && entry_frame(ent(m2, f1, i1))
            == entry_frame(ent(m2, f2, i2)) implies f1 == f2 && i1 == i2 by {
        if f1 == tf && i1 == ti {
            if !(f2 == tf && i2 == ti) {
                assert(entry_frame(ent(m2, f2, i2)) != c);
            }
        } else if f2 == tf && i2 == ti {
            assert(entry_frame(ent(m2, f1, i1)) != c);
        } else {
            assert(down_slot(mmid, f1, i1) && down_slot(mmid, f2, i2));
        }
    }
    assert(wf(m2));
}

/// Linking a fresh zeroed table into a previously unused directory
/// slot leaves every user-page walk translating as before: a walk
/// that passed through the unused slot found nothing, and now runs
/// into the empty table.
pub proof fn lemma_link_zero_walk(
    m1: MachineModel,
    mmid: MachineModel,
    m2: MachineModel,
    tf: u64,
    ti: u64,
    c: u64,
    nv: u64,
    rr: u64,
    q: u64,
)
    requires
        wf(m1),
        wf(mmid),
        wf(m2),
        is_table(m1, tf),
        2 <= m1.lvl[tf] <= 4,
        ti < 512,
        m1.lvl[tf] == 4 ==> ti < 511,
        !entry_present(ent(m1, tf, ti)),
        !m1.store.dom().contains(c),
        mmid.store == m1.store.insert(c, crate::table::zero_table()),
        mmid.lvl == m1.lvl.insert(c, m1.lvl[tf] - 1),
        mmid.cr3 == m1.cr3,
        cell_written(mmid, m2, tf, ti, nv),
        entry_present(nv),
        !entry_huge(nv),
        entry_frame(nv) == c,
        is_l4(m1, rr),
        user_page(q),
    ensures
        resolve_at(m2, rr, q) == resolve_at(mmid, rr, q),
        leaf_mapped_at(m2, rr, q) == leaf_mapped_at(mmid, rr, q),
{
    lemma_idx_bounds(q);
    lemma_entry_bounds(0u64);
    assert(is_l4(mmid, rr));
    lemma_walk_frames(mmid, rr, q);
    lemma_walk_frames(m2, rr, q);
    assert(forall|j: int| 0 <= j < 512 ==> crate::table::zero_table()[j] == 0u64);
    assert(m2.store[c] == mmid.store[c]);
    assert(mmid.store[c] == crate::table::zero_table());
    if !walk_reads(mmid, rr, q, tf, ti) {
        lemma_untouched_walk(mmid, m2, tf, ti, nv, rr, q);
    } else if rr == tf && idx4(q) == ti {
        // the top-level slot itself was linked
        assert(!entry_present(l4e(mmid, rr, q)));
        assert(l4e(m2, rr, q) == nv);
        assert(t3f(m2, rr, q) == c);
        assert(l3e(m2, rr, q) == 0u64);
    } else if entry_present(l4e(mmid, rr, q)) && t3f(mmid, rr, q) == tf && idx3(q) == ti {
        // an upper-directory slot was linked
        assert(mmid.lvl[tf] == 3);
        assert(rr != tf);
        assert(l4e(m2, rr, q) == l4e(mmid, rr, q));
        assert(l3e(m2, rr, q) == nv);
        assert(t2f(m2, rr, q) == c);
        assert(l2e(m2, rr, q) == 0u64);
        assert(!entry_present(l3e(mmid, rr, q)));
    } else {
        // a middle-directory slot was linked
        assert(entry_present(l4e(mmid, rr, q)) && entry_present(l3e(mmid, rr, q)) && !entry_huge(
            l3e(mmid, rr, q),
        ) && t2f(mmid, rr, q) == tf && idx2(q) == ti);
        assert(mmid.lvl[tf] == 2);
        assert(rr != tf);
        assert(t3f(mmid, rr, q) != tf);
        assert(l4e(m2, rr, q) == l4e(mmid, rr, q));
        assert(l3e(m2, rr, q) == l3e(mmid, rr, q));
        assert(l2e(m2, rr, q) == nv);
        assert(t1f(m2, rr, q) == c);
        assert(l1e(m2, rr, q) == 0u64);
        assert(!entry_present(l2e(mmid, rr, q)));
    }
}

/// Repointing the recursive slot of the register's table at another
/// top-level table (whose own recursive slot references itself) keeps
/// the machine invariant and leaves every user-page walk unchanged:
/// user pages never route through slot 511.
pub proof fn lemma_wf_after_redirect(m1: MachineModel, m2: MachineModel, target: u64, nv: u64)
    requires
        wf(m1),
        cell_written(m1, m2, m1.cr3, 511, nv),
        entry_present(nv),
        entry_frame(nv) == target,
        is_l4(m1, target),
        target == m1.cr3 || entry_frame(ent(m1, target, 511)) == target,
    ensures
        wf(m2),
        m2.cr3 == m1.cr3,
        m2.lvl == m1.lvl,
        m2.store.dom() == m1.store.dom(),
        eff_root(m2) == target,
        forall|g: u64, j: u64|
            is_table(m1, g) && j < 512 && !(g == m1.cr3 && j == 511) ==> ent(m2, g, j)
                == #[trigger] ent(m1, g, j),
        forall|rr: u64, q: u64|
            is_l4(m1, rr) && user_page(q) ==> #[trigger] resolve_at(m2, rr, q) == resolve_at(
                m1,
                rr,
                q,
            ) && leaf_mapped_at(m2, rr, q) == leaf_mapped_at(m1, rr, q),
{
    assert(m2.store.dom() =~= m1.store.dom());
    assert(m2.lvl.dom() =~= m2.store.dom());
    assert forall|g: u64, j: u64|
        is_table(m1, g) && j < 512 && !(g == m1.cr3 && j == 511) implies ent(m2, g, j)
        == #[trigger] ent(m1, g, j) by {
        if g == m1.cr3 {
            assert(m2.store[g] == m1.store[m1.cr3].update(511, nv));
        }
    }
    assert(ent(m2, m2.cr3, 511) == nv);
    assert(eff_root(m2) == target);
    if target == m1.cr3 {
        assert(ent(m2, target, 511) == nv);
    } else {
        assert(ent(m2, target, 511) == ent(m1, target, 511));
    }
    assert(entry_frame(ent(m2, eff_root(m2), 511)) == eff_root(m2));
    assert forall|f: u64| #[trigger] is_table(m2, f) implies m2.store[f].len() == 512 && 1
        <= m2.lvl[f] <= 4 && 0 < f < FRAME_LIMIT by {
        assert(is_table(m1, f));
        if f == m1.cr3 {
            assert(m2.store[f] == m1.store[m1.cr3].update(511, nv));
        }
    }
    assert forall|f: u64|
        is_table(m2, f) && #[trigger] m2.lvl[f] == 4 implies entry_present(ent(m2, f, 511))
        && is_table(m2, entry_frame(ent(m2, f, 511))) && m2.lvl[entry_frame(ent(m2, f, 511))]
        == 4 by {
        if f == m1.cr3 {
            assert(ent(m2, f, 511) == nv);
        } else {
            assert(ent(m2, f, 511) == ent(m1, f, 511));
        }
    }
    assert forall|f: u64, i: u64|
        is_table(m2, f) && m2.lvl[f] == 4 && i < 511 && entry_present(
        #[trigger] ent(m2, f, i),
    ) implies !entry_huge(ent(m2, f, i)) && is_table(m2, entry_frame(ent(m2, f, i)))
        && m2.lvl[entry_frame(ent(m2, f, i))] == 3 by {
        assert(ent(m2, f, i) == ent(m1, f, i));
        assert(is_table(m1, entry_frame(ent(m1, f, i))));
    }
    assert forall|f: u64, i: u64|
        is_table(m2, f) && (m2.lvl[f] == 3 || m2.lvl[f] == 2) && i < 512 && entry_present(
        #[trigger] ent(m2, f, i),
    ) && !entry_huge(ent(m2, f, i)) implies is_table(m2, entry_frame(ent(m2, f, i)))
        && m2.lvl[entry_frame(ent(m2, f, i))] == m2.lvl[f] - 1 by {
        assert(f != m1.cr3);
        assert(ent(m2, f, i) == ent(m1, f, i));
        assert(is_table(m1, entry_frame(ent(m1, f, i))));
    }
    assert forall|f: u64, i: u64|
        is_table(m2, f) && i < 512 && entry_present(#[trigger] ent(m2, f, i)) implies entry_frame(
        ent(m2, f, i),
    ) > 0 by {
        if f == m1.cr3 && i == 511 {
            assert(entry_frame(ent(m2, f, i)) == target);
        } else {
            assert(ent(m2, f, i) == ent(m1, f, i));
        }
    }
    assert forall|f: u64, i: u64| #[trigger] down_slot(m2, f, i) implies down_slot(m1, f, i)
        && ent(m2, f, i) == ent(m1, f, i) by {
        assert(!(f == m1.cr3 && i == 511));
    }
    assert forall|f1: u64, i1: u64, f2: u64, i2: u64|
        down_slot(m2, f1, i1) && down_slot(m2, f2, i2) && entry_frame(ent(m2, f1, i1))
            == entry_frame(ent(m2, f2, i2)) implies f1 == f2 && i1 == i2 by {
        assert(down_slot(m1, f1, i1) && down_slot(m1, f2, i2));
    }
    assert(wf(m2));
    assert forall|rr: u64, q: u64|
        is_l4(m1, rr) && user_page(q) implies #[trigger] resolve_at(m2, rr, q) == resolve_at(
        m1,
        rr,
        q,
    ) && leaf_mapped_at(m2, rr, q) == leaf_mapped_at(m1, rr, q) by {
        lemma_idx_bounds(q);
        lemma_walk_frames(m1, rr, q);
        assert(!walk_reads(m1, rr, q, m1.cr3, 511));
        lemma_untouched_walk(m1, m2, m1.cr3, 511, nv, rr, q);
    }
}

/// Turning a fresh frame into an empty top-level table whose
/// recursive slot references itself keeps the machine invariant and
/// leaves every existing walk unchanged; every user-page walk from
/// the new table finds nothing. `mmid` is the state with the zeroed
/// table installed, `m2` the state with its recursive slot written.
pub proof fn lemma_wf_after_root_install(
    m1: MachineModel,
    mmid: MachineModel,
    m2: MachineModel,
    x: u64,
    nv: u64,
)
    requires
        wf(m1),
        !m1.store.dom().contains(x),
        0 < x < FRAME_LIMIT,
        mmid.store == m1.store.insert(x, crate::table::zero_table()),
        mmid.lvl == m1.lvl.insert(x, 4),
        mmid.cr3 == m1.cr3,
        cell_written(mmid, m2, x, 511, nv),
        entry_present(nv),
        entry_frame(nv) == x,
    ensures
        wf(m2),
        m2.cr3 == m1.cr3,
        eff_root(m2) == eff_root(m1),
        m2.store.dom() == m1.store.dom().insert(x),
        is_l4(m2, x),
        entry_frame(ent(m2, x, 511)) == x,
        entry_present(ent(m2, x, 511)),
        forall|g: u64|
            #[trigger] is_table(m1, g) ==> is_table(m2, g) && m2.lvl[g] == m1.lvl[g],
        forall|g: u64, j: u64|
            is_table(m1, g) && j < 512 ==> ent(m2, g, j) == #[trigger] ent(m1, g, j),
        forall|rr: u64, q: u64|
            is_l4(m1, rr) && user_page(q) ==> #[trigger] resolve_at(m2, rr, q) == resolve_at(
                m1,
                rr,
                q,
            ) && leaf_mapped_at(m2, rr, q) == leaf_mapped_at(m1, rr, q),
        forall|q: u64| user_page(q) ==> #[trigger] resolve_at(m2, x, q) is None,
{
    assert(m2.store.dom() =~= m1.store.dom().insert(x));
    assert(m2.lvl.dom() =~= m2.store.dom());
    assert(forall|j: int| 0 <= j < 512 ==> crate::table::zero_table()[j] == 0u64);
    lemma_entry_bounds(0u64);
    assert forall|g: u64, j: u64|
        is_table(m1, g) && j < 512 implies ent(m2, g, j) == #[trigger] ent(m1, g, j) by {
        assert(g != x);
    }
    assert(ent(m2, x, 511) == nv);
    assert forall|j: u64| j < 511 implies !entry_present(#[trigger] ent(m2, x, j)) by {
        assert(ent(m2, x, j) == 0u64);
    }
    assert(x != m1.cr3);
    assert(ent(m2, m2.cr3, 511) == ent(m1, m1.cr3, 511));
    assert(eff_root(m2) == eff_root(m1));
    assert(ent(m2, eff_root(m2), 511) == ent(m1, eff_root(m1), 511));
    assert forall|f: u64| #[trigger] is_table(m2, f) implies m2.store[f].len() == 512 && 1
        <= m2.lvl[f] <= 4 && 0 < f < FRAME_LIMIT by {
        if f != x {
            assert(is_table(m1, f));
        }
    }
    assert forall|f: u64|
        is_table(m2, f) && #[trigger] m2.lvl[f] == 4 implies entry_present(ent(m2, f, 511))
        && is_table(m2, entry_frame(ent(m2, f, 511))) && m2.lvl[entry_frame(ent(m2, f, 511))]
        == 4 by {
        if f == x {
            assert(ent(m2, f, 511) == nv);
        } else {
            assert(is_table(m1, f));
            assert(ent(m2, f, 511) == ent(m1, f, 511));
            assert(is_table(m1, entry_frame(ent(m1, f, 511))));
        }
    }
    assert forall|f: u64, i: u64|
        is_table(m2, f) && m2.lvl[f] == 4 && i < 511 && entry_present(
        #[trigger] ent(m2, f, i),
    ) implies !entry_huge(ent(m2, f, i)) && is_table(m2, entry_frame(ent(m2, f, i)))
        && m2.lvl[entry_frame(ent(m2, f, i))] == 3 by {
        assert(f != x);
        assert(is_table(m1, f));
        assert(ent(m2, f, i) == ent(m1, f, i));
        assert(is_table(m1, entry_frame(ent(m1, f, i))));
    }
    assert forall|f: u64, i: u64|
        is_table(m2, f) && (m2.lvl[f] == 3 || m2.lvl[f] == 2) && i < 512 && entry_present(
        #[trigger] ent(m2, f, i),
    ) && !entry_huge(ent(m2, f, i)) implies is_table(m2, entry_frame(ent(m2, f, i)))
        && m2.lvl[entry_frame(ent(m2, f, i))] == m2.lvl[f] - 1 by {
        assert(f != x);
        assert(is_table(m1, f));
        assert(ent(m2, f, i) == ent(m1, f, i));
        assert(is_table(m1, entry_frame(ent(m1, f, i))));
    }
    assert forall|f: u64, i: u64|
        is_table(m2, f) && i < 512 && entry_present(#[trigger] ent(m2, f, i)) implies entry_frame(
        ent(m2, f, i),
    ) > 0 by {
        if f == x {
            assert(i == 511);
            assert(entry_frame(ent(m2, f, i)) == x);
        } else {
            assert(is_table(m1, f));
            assert(ent(m2, f, i) == ent(m1, f, i));
        }
    }
    assert forall|f: u64, i: u64| #[trigger] down_slot(m2, f, i) implies down_slot(m1, f, i)
        && ent(m2, f, i) == ent(m1, f, i) by {
        if f == x {
            assert(i < 511);
            assert(!entry_present(ent(m2, f, i)));
        }
    }
    assert forall|f1: u64, i1: u64, f2: u64, i2: u64|
        down_slot(m2, f1, i1) && down_slot(m2, f2, i2) && entry_frame(ent(m2, f1, i1))
            == entry_frame(ent(m2, f2, i2)) implies f1 == f2 && i1 == i2 by {
        assert(down_slot(m1, f1, i1) && down_slot(m1, f2, i2));
    }
    assert(wf(m2));
    assert forall|rr: u64, q: u64|
        is_l4(m1, rr) && user_page(q) implies #[trigger] resolve_at(m2, rr, q) == resolve_at(
        m1,
        rr,
        q,
    ) && leaf_mapped_at(m2, rr, q) == leaf_mapped_at(m1, rr, q) by {
        lemma_idx_bounds(q);
        lemma_walk_frames(m1, rr, q);
        assert(l4e(m2, rr, q) == l4e(m1, rr, q));
        if entry_present(l4e(m1, rr, q)) {
            assert(t3f(m1, rr, q) != x);
            assert(l3e(m2, rr, q) == l3e(m1, rr, q));
            if entry_present(l3e(m1, rr, q)) && !entry_huge(l3e(m1, rr, q)) {
                assert(t2f(m1, rr, q) != x);
                assert(l2e(m2, rr, q) == l2e(m1, rr, q));
                if entry_present(l2e(m1, rr, q)) && !entry_huge(l2e(m1, rr, q)) {
                    assert(t1f(m1, rr, q) != x);
                    assert(l1e(m2, rr, q) == l1e(m1, rr, q));
                }
            }
        }
    }
    assert forall|q: u64| user_page(q) implies #[trigger] resolve_at(m2, x, q) is None by {
        lemma_idx_bounds(q);
        assert(idx4(q) < 511);
        assert(!entry_present(ent(m2, x, idx4(q))));
    }
}

/// Every page-number index is a nine-bit value.
pub proof fn lemma_idx_bounds(vpn: u64)
    by (bit_vector)
    ensures
        idx4(vpn) < 512,
        idx3(vpn) < 512,
        idx2(vpn) < 512,
        idx1(vpn) < 512,
{
}

/// Two in-range page numbers with the same four indices are the same
/// page.
pub proof fn lemma_vpn_unique(v1: u64, v2: u64)
    by (bit_vector)
    requires
        v1 < 0x10_0000_0000,
        v2 < 0x10_0000_0000,
        idx4(v1) == idx4(v2),
        idx3(v1) == idx3(v2),
        idx2(v1) == idx2(v2),
        idx1(v1) == idx1(v2),
    ensures
        v1 == v2,
{
}

/// The page-number indices agree with the address-based indices of
/// the address layer.
pub proof fn lemma_page_of_address(a: u64)
    by (bit_vector)
    ensures
        a / 4096 == a >> 12,
        idx4(a >> 12) == crate::addr::spec_pml4_index(a),
        idx3(a >> 12) == crate::addr::spec_pdpt_index(a),
        idx2(a >> 12) == crate::addr::spec_pd_index(a),
        idx1(a >> 12) == crate::addr::spec_pt_index(a),
{
}

} // verus!
