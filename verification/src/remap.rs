//! The kernel remap procedure: build a fresh, minimal address space
//! and switch into it.
//!
//! For every page-aligned, loaded section of the kernel image the
//! covering frames are identity-mapped with flags derived from the
//! section's attributes; the display buffer and the boot-metadata
//! frames are identity-mapped as well. The new table is populated
//! through the temporary-window mechanism and only installed once it
//! is complete -- any failure aborts the procedure before the switch,
//! and the register is then untouched. On success the retired table's
//! root frame becomes an unmapped guard page and is returned to the
//! allocator.

use vstd::prelude::*;
use crate::active::{ActivePageTable, InactivePageTable, TempPage};
use crate::addr::{PAddr, PAGE_SIZE};
use crate::entry::{entry_frame, EntryFlags, PRESENT, WRITABLE, FLAGS_LIMIT};
use crate::frame_alloc::{FrameAllocator, frames_fresh};
use crate::mapper::{MapErr, MapResult};
use crate::model::{
    MachineModel, user_page, ent, eff_root, l1e, resolve_at, resolve, leaf_mapped_at, is_table,
    is_l4, wf,
};
use crate::page::{Frame, VirtualPage};

verus! {

/// The page number of the scratch page used while switching page
/// tables; chosen to avoid collision with kernel mappings.
pub const TEMP_PAGE_NUMBER: u64 = 0xfacade;

/// The frame holding the display buffer.
pub const VGA_BUFFER_FRAME: u64 = 0xb8;

/// One loaded section of the kernel image, as the boot metadata
/// describes it.
#[derive(Copy, Clone, Debug, PartialEq, Eq, Structural)]
pub struct SectionInfo {
    /// Physical address the section starts at.
    pub start: PAddr,
    /// Physical address just past the section.
    pub end: PAddr,
    /// The section is written to at run time.
    pub writable: bool,
    /// The section holds executable code.
    pub executable: bool,
    /// The section occupies memory in the loaded image.
    pub allocated: bool,
}

/// The boot-time metadata the remap procedure consumes: the kernel's
/// loaded sections and the span of the boot-information structure.
pub struct InitParams {
    /// The kernel image's sections.
    pub sections: Vec<SectionInfo>,
    /// Physical address where the boot information starts.
    pub multiboot_start: PAddr,
    /// Physical address just past the boot information.
    pub multiboot_end: PAddr,
}

/// The entry flags a section is mapped with: always present, and
/// writable exactly when the section is. A section that is neither
/// writable nor executable gets the most restrictive set consistent
/// with read access.
pub open spec fn section_flags(s: SectionInfo) -> u64 {
    if s.writable {
        PRESENT | WRITABLE
    } else {
        PRESENT
    }
}

/// Compute the entry flags for a section.
pub fn flags_for_section(s: &SectionInfo) -> (r: EntryFlags)
    ensures
        r.bits == section_flags(*s),
        r.bits < FLAGS_LIMIT,
        r.bits & PRESENT == PRESENT,
{
    proof {
        crate::entry::lemma_flag_bits();
        assert(0x1u64 & 0x1u64 == 0x1u64) by (bit_vector);
    }
    if s.writable {
        EntryFlags { bits: PRESENT | WRITABLE }
    } else {
        EntryFlags { bits: PRESENT }
    }
}

/// A frame number whose identity page can be mapped: non-zero, inside
/// the 48-bit translated range, and below the region the recursive
/// top-level slot reserves.
pub open spec fn mappable_frame(n: u64) -> bool {
    0 < n < 0xf_f800_0000
}

/// Frame numbers below the reserved recursive region are valid user
/// pages.
pub proof fn lemma_mappable_user(n: u64)
    by (bit_vector)
    requires
        n < 0xf_f800_0000,
    ensures
        n < 0x10_0000_0000,
        (n >> 27) & 0x1ff != 511,
{
}

/// The remap procedure accepts boot metadata whose regions lie in the
/// low identity-mapped range.
pub open spec fn params_wf(p: InitParams) -> bool {
    &&& forall|i: int|
        0 <= i < p.sections@.len() ==> {
            let s = #[trigger] p.sections@[i];
            s.start.0 <= s.end.0 && PAGE_SIZE <= s.start.0 && s.end.0 / PAGE_SIZE < 0xf_f800_0000
        }
    &&& p.multiboot_start.0 <= p.multiboot_end.0
    &&& PAGE_SIZE <= p.multiboot_start.0
    &&& p.multiboot_end.0 / PAGE_SIZE < 0xf_f800_0000
}

/// Frame `n` is one of the covering frames of section `i`.
pub open spec fn in_section(p: InitParams, i: int, n: u64) -> bool {
    p.sections@[i].start.0 / PAGE_SIZE <= n < p.sections@[i].end.0 / PAGE_SIZE
}

/// Frame `n` is one of the covering frames of the boot information.
pub open spec fn in_multiboot(p: InitParams, n: u64) -> bool {
    p.multiboot_start.0 / PAGE_SIZE <= n < p.multiboot_end.0 / PAGE_SIZE
}

/// Every allocated section starts on a page boundary.
pub open spec fn sections_aligned(p: InitParams) -> bool {
    forall|i: int|
        0 <= i < p.sections@.len() && (#[trigger] p.sections@[i]).allocated ==> p.sections@[i].start.0
            % PAGE_SIZE == 0
}

/// Frame `n` is covered by one of the first `k` sections that is
/// allocated.
pub open spec fn in_prefix_region(p: InitParams, k: int, n: u64) -> bool {
    exists|i: int| 0 <= i < k && p.sections@[i].allocated && #[trigger] in_section(p, i, n)
}

/// Frame `n` is one of the frames the remap procedure maps: an
/// allocated section frame, a boot-information frame, or the display
/// buffer.
pub open spec fn in_mapped_region(p: InitParams, n: u64) -> bool {
    ||| in_prefix_region(p, p.sections@.len() as int, n)
    ||| in_multiboot(p, n)
    ||| n == VGA_BUFFER_FRAME
}

/// The page count of the first `k` sections that are allocated.
pub open spec fn section_page_count(p: InitParams, k: int) -> int
    decreases k,
{
    if k <= 0 {
        0
    } else {
        section_page_count(p, k - 1) + (if p.sections@[k - 1].allocated {
            p.sections@[k - 1].end.0 / PAGE_SIZE - p.sections@[k - 1].start.0 / PAGE_SIZE
        } else {
            0
        })
    }
}

/// How many pages the remap procedure maps in all.
pub open spec fn pages_to_map(p: InitParams) -> int {
    section_page_count(p, p.sections@.len() as int) + 1 + (p.multiboot_end.0 / PAGE_SIZE
        - p.multiboot_start.0 / PAGE_SIZE)
}

/// Enough frames for the whole remap, whatever directories already
/// exist: one for the new root, three for each of the two temporary
/// bindings, and three directories for every page mapped.
pub open spec fn frames_needed(p: InitParams) -> int {
    7 + 3 * pages_to_map(p)
}

/// The regions the remap procedure maps do not overlap: a frame lies
/// in at most one allocated section, never both in a section and in
/// the boot information, and the display buffer lies in neither.
pub open spec fn regions_disjoint(p: InitParams) -> bool {
    &&& forall|i: int, j: int, n: u64|
        #![trigger in_section(p, i, n), in_section(p, j, n)]
        0 <= i < p.sections@.len() && 0 <= j < p.sections@.len() && i != j
            && p.sections@[i].allocated && p.sections@[j].allocated ==> !(in_section(p, i, n)
            && in_section(p, j, n))
    &&& forall|i: int, n: u64|
        0 <= i < p.sections@.len() && p.sections@[i].allocated && #[trigger] in_section(p, i, n)
            ==> !in_multiboot(p, n) && n != VGA_BUFFER_FRAME
    &&& !in_multiboot(p, VGA_BUFFER_FRAME)
}

/// Section page counts are non-negative.
pub proof fn lemma_spc_nonneg(p: InitParams, k: int)
    requires
        params_wf(p),
        0 <= k <= p.sections@.len(),
    ensures
        0 <= section_page_count(p, k),
    decreases k,
{
    if k > 0 {
        vstd::arithmetic::div_mod::lemma_div_is_ordered(
            p.sections@[k - 1].start.0 as int,
            p.sections@[k - 1].end.0 as int,
            PAGE_SIZE as int,
        );
        lemma_spc_nonneg(p, k - 1);
    }
}

/// Section page counts grow with the prefix.
pub proof fn lemma_spc_mono(p: InitParams, a: int, b: int)
    requires
        params_wf(p),
        0 <= a <= b <= p.sections@.len(),
    ensures
        section_page_count(p, a) <= section_page_count(p, b),
    decreases b,
{
    if a < b {
        vstd::arithmetic::div_mod::lemma_div_is_ordered(
            p.sections@[b - 1].start.0 as int,
            p.sections@[b - 1].end.0 as int,
            PAGE_SIZE as int,
        );
        lemma_spc_mono(p, a, b - 1);
    }
}

/// Every mapped user page of the window translates to the frame of
/// the same number: the space is an identity mapping wherever it is
/// mapped at all.
pub open spec fn identity_space(m: MachineModel) -> bool {
    forall|q: u64|
        user_page(q) && (#[trigger] resolve(m, q)) is Some ==> resolve(m, q).unwrap().0 == q
}

/// Identity-map the frames numbered `lo` (inclusive) to `hi`
/// (exclusive) with the given flags. On success every frame of the
/// range was unmapped before and translates to itself afterwards;
/// nothing else changes.
#[verifier::rlimit(100)]
#[verifier::spinoff_prover]
fn identity_map_range<A: FrameAllocator>(
    active: &mut ActivePageTable,
    lo: u64,
    hi: u64,
    flags: EntryFlags,
    alloc: &mut A,
) -> (r: MapResult<()>)
    requires
        wf(old(active)@),
        lo <= hi,
        0 < lo,
        hi < 0xf_f800_0000,
        flags.bits < FLAGS_LIMIT,
        flags.bits & PRESENT == PRESENT,
        frames_fresh(alloc.avail(), old(active)@.store.dom()),
    ensures
        wf(final(active)@),
        final(active)@.cr3 == old(active)@.cr3,
        eff_root(final(active)@) == eff_root(old(active)@),
        final(alloc).freed() == old(alloc).freed(),
        frames_fresh(final(alloc).avail(), final(active)@.store.dom()),
        forall|g: u64|
            #[trigger] is_table(old(active)@, g) ==> is_table(final(active)@, g)
                && final(active)@.lvl[g] == old(active)@.lvl[g],
        forall|g: u64| #[trigger] is_l4(final(active)@, g) == is_l4(old(active)@, g),
        forall|rr: u64, q: u64|
            is_l4(old(active)@, rr) && user_page(q) && !(rr == eff_root(old(active)@) && lo <= q
                < hi) ==> #[trigger] resolve_at(final(active)@, rr, q) == resolve_at(
                old(active)@,
                rr,
                q,
            ) && leaf_mapped_at(final(active)@, rr, q) == leaf_mapped_at(old(active)@, rr, q),
        identity_space(old(active)@) ==> identity_space(final(active)@),
        r is Ok ==> forall|n: u64|
            lo <= n < hi ==> #[trigger] resolve(final(active)@, n) == Some((n, flags.bits)),
        r is Ok ==> forall|n: u64|
            lo <= n < hi ==> #[trigger] resolve(old(active)@, n) is None,
{
    let ghost m0 = active@;
    let mut n: u64 = lo;
    while n < hi
        invariant
            lo <= n <= hi,
            0 < lo,
            hi < 0xf_f800_0000,
            flags.bits < FLAGS_LIMIT,
            flags.bits & PRESENT == PRESENT,
            m0 == old(active)@,
            wf(m0),
            is_l4(m0, eff_root(m0)),
            wf(active@),
            active@.cr3 == m0.cr3,
            eff_root(active@) == eff_root(m0),
            alloc.freed() == old(alloc).freed(),
            frames_fresh(alloc.avail(), active@.store.dom()),
            forall|g: u64|
                #[trigger] is_table(m0, g) ==> is_table(active@, g) && active@.lvl[g] == m0.lvl[g],
            forall|g: u64| #[trigger] is_l4(active@, g) == is_l4(m0, g),
            forall|rr: u64, q: u64|
                is_l4(m0, rr) && user_page(q) && !(rr == eff_root(m0) && lo <= q < n)
                    ==> #[trigger] resolve_at(active@, rr, q) == resolve_at(m0, rr, q)
                    && leaf_mapped_at(active@, rr, q) == leaf_mapped_at(m0, rr, q),
            forall|k: u64|
                lo <= k < n ==> #[trigger] resolve(active@, k) == Some((k, flags.bits)),
            forall|k: u64| lo <= k < n ==> #[trigger] resolve(m0, k) is None,
            identity_space(m0) ==> identity_space(active@),
        decreases hi - n,
    {
        let ghost mp = active@;
        proof {
            lemma_mappable_user(n);
        }
        let step = active.pml4_mut().identity_map(Frame { number: n }, flags, alloc);
        match step {
            Ok(()) => {},
            Err(e) => {
                proof {
                    assert(resolve(active@, n) == resolve(mp, n));
                    lemma_range_abort(m0, mp, active@, lo, n, hi);
                }
                return Err(e);
            },
        }
        proof {
            assert(crate::model::map_plan(mp, eff_root(mp), n) >= 0);
            lemma_range_iteration(m0, mp, active@, lo, n, hi, flags.bits);
        }
        n = n + 1;
    }
    Ok(())
}


/// Populate the window's hierarchy with the identity mappings of the
/// kernel's allocated sections, the display buffer and the boot
/// information. Runs inside an open window: the register's own
/// hierarchy, including the temporary binding, is untouched on every
/// path, and on failure the register's table is unchanged.
#[verifier::rlimit(100)]
#[verifier::spinoff_prover]
fn remap_populate<A: FrameAllocator>(
    current_table: &mut ActivePageTable,
    params: &InitParams,
    alloc: &mut A,
) -> (r: MapResult<()>)
    requires
        wf(old(current_table)@),
        params_wf(*params),
        mappable_frame(old(current_table)@.cr3),
        eff_root(old(current_table)@) != old(current_table)@.cr3,
        user_page(TEMP_PAGE_NUMBER),
        leaf_mapped_at(old(current_table)@, old(current_table)@.cr3, TEMP_PAGE_NUMBER),
        entry_frame(l1e(old(current_table)@, old(current_table)@.cr3, TEMP_PAGE_NUMBER)) == old(
            current_table,
        )@.cr3,
        forall|q: u64| user_page(q) ==> #[trigger] resolve(old(current_table)@, q) is None,
        frames_fresh(alloc.avail(), old(current_table)@.store.dom()),
    ensures
        wf(final(current_table)@),
        final(current_table)@.cr3 == old(current_table)@.cr3,
        eff_root(final(current_table)@) == eff_root(old(current_table)@),
        final(alloc).freed() == old(alloc).freed(),
        frames_fresh(final(alloc).avail(), final(current_table)@.store.dom()),
        leaf_mapped_at(final(current_table)@, final(current_table)@.cr3, TEMP_PAGE_NUMBER),
        entry_frame(
            l1e(final(current_table)@, final(current_table)@.cr3, TEMP_PAGE_NUMBER),
        ) == final(current_table)@.cr3,
        identity_space(final(current_table)@),
        r is Ok ==> {
            let mm = final(current_table)@;
            &&& forall|i: int, n: u64|
                #![trigger in_section(*params, i, n), resolve(mm, n)]
                0 <= i < params.sections@.len() && params.sections@[i].allocated && in_section(
                    *params,
                    i,
                    n,
                ) ==> resolve(mm, n) == Some((n, section_flags(params.sections@[i])))
            &&& resolve(mm, VGA_BUFFER_FRAME) == Some((VGA_BUFFER_FRAME, PRESENT | WRITABLE))
            &&& forall|n: u64|
                in_multiboot(*params, n) ==> #[trigger] resolve(mm, n) == Some((n, PRESENT))
            &&& forall|i: int|
                0 <= i < params.sections@.len() && (#[trigger] params.sections@[i]).allocated
                    ==> params.sections@[i].start.0 % PAGE_SIZE == 0
        },
{
    let ghost m2 = current_table@;
    let ghost c0 = m2.cr3;
    let ghost x = eff_root(m2);
    proof {
        assert(identity_space(m2));
        assert(is_l4(m2, x));
    }

    // identity-map the kernel's allocated sections
    let mut i: usize = 0;
    while i < params.sections.len()
        invariant
            i <= params.sections@.len(),
            params_wf(*params),
            m2 == old(current_table)@,
            c0 == m2.cr3,
            x == eff_root(m2),
            wf(current_table@),
            current_table@.cr3 == c0,
            x != c0,
            mappable_frame(c0),
            eff_root(current_table@) == x,
            alloc.freed() == old(alloc).freed(),
            frames_fresh(alloc.avail(), current_table@.store.dom()),
            is_l4(current_table@, c0),
            is_l4(current_table@, x),
            user_page(TEMP_PAGE_NUMBER),
            leaf_mapped_at(current_table@, c0, TEMP_PAGE_NUMBER),
            entry_frame(l1e(current_table@, c0, TEMP_PAGE_NUMBER)) == c0,
            identity_space(current_table@),
            forall|j: int, n: u64|
                #![trigger in_section(*params, j, n), resolve(current_table@, n)]
                0 <= j < i && params.sections@[j].allocated && in_section(*params, j, n)
                    ==> resolve(current_table@, n) == Some(
                    (n, section_flags(params.sections@[j])),
                ),
            forall|j: int|
                0 <= j < i && (#[trigger] params.sections@[j]).allocated
                    ==> params.sections@[j].start.0 % PAGE_SIZE == 0,
        decreases params.sections@.len() - i,
    {
        let ghost ms = current_table@;
        let section = params.sections[i];
        if section.allocated {
            if section.start.0 % PAGE_SIZE != 0 {
                return Err(MapErr::MisalignedRegion { addr: section.start });
            }
            let flags = flags_for_section(&section);
            let lo = section.start.0 / PAGE_SIZE;
            let hi = section.end.0 / PAGE_SIZE;
            proof {
                vstd::arithmetic::div_mod::lemma_div_is_ordered(
                    section.start.0 as int,
                    section.end.0 as int,
                    PAGE_SIZE as int,
                );
                vstd::arithmetic::div_mod::lemma_div_is_ordered(
                    PAGE_SIZE as int,
                    section.start.0 as int,
                    PAGE_SIZE as int,
                );
            }
            match identity_map_range(current_table, lo, hi, flags, alloc) {
                Ok(()) => {},
                Err(e) => {
                    proof {
                        lemma_remap_step(ms, current_table@, c0, x, lo, hi);
                    }
                    return Err(e);
                },
            }
            proof {
                lemma_remap_step(ms, current_table@, c0, x, lo, hi);
            }
        }
        i = i + 1;
        proof {
            assert forall|j: int, n: u64|
                #![trigger in_section(*params, j, n), resolve(current_table@, n)]
                0 <= j < i && params.sections@[j].allocated && in_section(*params, j, n) implies
                resolve(current_table@, n) == Some(
                (n, section_flags(params.sections@[j])),
            ) by {
                if j < i - 1 || !section.allocated {
                    assert(resolve(ms, n) == Some((n, section_flags(params.sections@[j]))));
                    if current_table@ != ms {
                        lemma_mappable_user(n);
                        assert(resolve_at(current_table@, x, n) == resolve_at(ms, x, n));
                    }
                }
            }
        }
    }

    // identity-map the display buffer
    let ghost mv = current_table@;
    proof {
        crate::entry::lemma_flag_bits();
    }
    match identity_map_range(
        current_table,
        VGA_BUFFER_FRAME,
        VGA_BUFFER_FRAME + 1,
        EntryFlags { bits: PRESENT | WRITABLE },
        alloc,
    ) {
        Ok(()) => {},
        Err(e) => {
            proof {
                lemma_remap_step(
                    mv,
                    current_table@,
                    c0,
                    x,
                    VGA_BUFFER_FRAME,
                    (VGA_BUFFER_FRAME + 1) as u64,
                );
            }
            return Err(e);
        },
    }
    proof {
        lemma_remap_step(
            mv,
            current_table@,
            c0,
            x,
            VGA_BUFFER_FRAME,
            (VGA_BUFFER_FRAME + 1) as u64,
        );
    }
    let ghost mw = current_table@;
    proof {
        assert forall|j: int, n: u64|
            #![trigger in_section(*params, j, n), resolve(mw, n)]
            0 <= j < params.sections@.len() && params.sections@[j].allocated && in_section(
            *params,
            j,
            n,
        ) implies resolve(mw, n) == Some((n, section_flags(params.sections@[j]))) by {
            assert(resolve(mv, n) == Some((n, section_flags(params.sections@[j]))));
            lemma_mappable_user(n);
            if VGA_BUFFER_FRAME <= n < VGA_BUFFER_FRAME + 1 {
                assert(resolve(mv, n) is None);
                assert(false);
            }
            assert(resolve_at(mw, x, n) == resolve_at(mv, x, n));
        }
    }

    // identity-map the boot information
    let mb_lo = params.multiboot_start.0 / PAGE_SIZE;
    let mb_hi = params.multiboot_end.0 / PAGE_SIZE;
    proof {
        vstd::arithmetic::div_mod::lemma_div_is_ordered(
            params.multiboot_start.0 as int,
            params.multiboot_end.0 as int,
            PAGE_SIZE as int,
        );
        vstd::arithmetic::div_mod::lemma_div_is_ordered(
            PAGE_SIZE as int,
            params.multiboot_start.0 as int,
            PAGE_SIZE as int,
        );
    }
    match identity_map_range(current_table, mb_lo, mb_hi, EntryFlags { bits: PRESENT }, alloc) {
        Ok(()) => {},
        Err(e) => {
            proof {
                lemma_remap_step(mw, current_table@, c0, x, mb_lo, mb_hi);
            }
            return Err(e);
        },
    }
    proof {
        lemma_remap_step(mw, current_table@, c0, x, mb_lo, mb_hi);
        let mm = current_table@;
        assert forall|j: int, n: u64|
            #![trigger in_section(*params, j, n), resolve(mm, n)]
            0 <= j < params.sections@.len() && params.sections@[j].allocated && in_section(
            *params,
            j,
            n,
        ) implies resolve(mm, n) == Some((n, section_flags(params.sections@[j]))) by {
            assert(resolve(mw, n) == Some((n, section_flags(params.sections@[j]))));
            lemma_mappable_user(n);
            if mb_lo <= n < mb_hi {
                assert(resolve(mw, n) is None);
                assert(false);
            }
            assert(resolve_at(mm, x, n) == resolve_at(mw, x, n));
        }
        if VGA_BUFFER_FRAME < mb_lo || VGA_BUFFER_FRAME >= mb_hi {
            lemma_mappable_user(VGA_BUFFER_FRAME);
            assert(resolve_at(mm, x, VGA_BUFFER_FRAME) == resolve_at(mw, x, VGA_BUFFER_FRAME));
        } else {
            assert(resolve(mw, VGA_BUFFER_FRAME) is None);
            assert(false);
        }
    }
    Ok(())
}

/// Build a new, minimal address space and switch the processor to it;
/// hand back the retired table.
///
/// Every page-aligned allocated section of the kernel image, the
/// display buffer and the boot-information frames are identity-mapped
/// into a fresh table. The new table is only installed once it is
/// complete and the retirement of the old root is known to succeed:
/// on any failure the register still holds the old table. On success
/// the old root frame is unmapped -- a guard page -- and returned to
/// the allocator exactly once.
#[verifier::rlimit(100)]
#[verifier::spinoff_prover]
pub fn kernel_remap<A: FrameAllocator>(
    current_table: &mut ActivePageTable,
    params: &InitParams,
    alloc: &mut A,
) -> (r: MapResult<InactivePageTable>)
    requires
        wf(old(current_table)@),
        eff_root(old(current_table)@) == old(current_table)@.cr3,
        mappable_frame(old(current_table)@.cr3),
        resolve(old(current_table)@, TEMP_PAGE_NUMBER) is None,
        frames_fresh(alloc.avail(), old(current_table)@.store.dom()),
        params_wf(*params),
    ensures
        wf(final(current_table)@),
        eff_root(final(current_table)@) == final(current_table)@.cr3,
        r is Err ==> final(current_table)@.cr3 == old(current_table)@.cr3 && final(alloc).freed()
            == old(alloc).freed(),
        r is Ok ==> {
            let c0 = old(current_table)@.cr3;
            let mf = final(current_table)@;
            &&& r.unwrap().frame_num() == c0
            &&& mf.cr3 != c0
            &&& resolve(mf, c0) is None
            &&& final(alloc).freed() == old(alloc).freed().push(c0)
            &&& forall|i: int, n: u64|
                #![trigger in_section(*params, i, n), resolve(mf, n)]
                0 <= i < params.sections@.len() && params.sections@[i].allocated && in_section(
                    *params,
                    i,
                    n,
                ) && n != c0 ==> resolve(mf, n) == Some(
                    (n, section_flags(params.sections@[i])),
                )
            &&& (VGA_BUFFER_FRAME != c0 ==> resolve(mf, VGA_BUFFER_FRAME) == Some(
                (VGA_BUFFER_FRAME, PRESENT | WRITABLE),
            ))
            &&& forall|n: u64|
                in_multiboot(*params, n) && n != c0 ==> #[trigger] resolve(mf, n) == Some(
                    (n, PRESENT),
                )
            &&& forall|i: int|
                0 <= i < params.sections@.len() && (#[trigger] params.sections@[i]).allocated
                    ==> params.sections@[i].start.0 % PAGE_SIZE == 0
        },
{
    let ghost m0 = current_table@;
    let ghost c0 = m0.cr3;
    let ghost av0 = alloc.avail();
    proof {
        assert(0xfacadeu64 < 0x10_0000_0000 && (0xfacadeu64 >> 27) & 0x1ff != 511)
            by (bit_vector);
        assert(user_page(TEMP_PAGE_NUMBER));
    }
    // a scratch page for switching page tables
    let mut temp_page = TempPage::new(TEMP_PAGE_NUMBER);

    // the frame for the new table's top level
    let root_frame = match alloc.allocate() {
        Some(f) => f,
        None => {
            return Err(
                MapErr::AllocationFailed { page: VirtualPage { number: TEMP_PAGE_NUMBER } },
            );
        },
    };
    proof {
        crate::frame_alloc::lemma_fresh_after_allocate(av0, m0.store.dom());
        assert forall|i: int| 0 <= i < alloc.avail().len() implies #[trigger] alloc.avail()[i]
            != root_frame.number by {
            assert(alloc.avail()[i] == av0[i]);
            assert(av0[i] != av0[av0.len() - 1]);
        }
    }

    // the new table: zeroed, holding its own recursive self-reference
    let new_table = match InactivePageTable::new(
        root_frame,
        current_table,
        &mut temp_page,
        alloc,
    ) {
        Ok(t) => t,
        Err(e) => {
            return Err(e);
        },
    };
    let ghost m1 = current_table@;
    let ghost x = new_table.frame_num();

    // open the window over the new table
    proof {
        assert(x != c0);
        assert(resolve(m1, TEMP_PAGE_NUMBER) == resolve(m0, TEMP_PAGE_NUMBER));
    }
    match current_table.start_using(&new_table, &mut temp_page, alloc) {
        Ok(()) => {},
        Err(e) => {
            return Err(e);
        },
    }
    let ghost m2 = current_table@;
    proof {
        assert forall|q: u64| user_page(q) implies #[trigger] resolve(m2, q) is None by {
            assert(resolve_at(m2, x, q) == resolve_at(m1, x, q));
            assert(resolve_at(m1, x, q) is None);
        }
        assert(identity_space(m2));
    }

    match remap_populate(current_table, params, alloc) {
        Ok(()) => {},
        Err(e) => {
            let parked = current_table.stop_using(&mut temp_page);
            return Err(e);
        },
    }
    let ghost mm = current_table@;
    proof {
        assert(is_l4(mm, x));
    }

    // the guard page must be removable from the new space before the
    // switch is committed: fail-fast, never installing otherwise
    let c0_exec = current_table.pml4().root_register();
    proof {
        lemma_mappable_user(c0);
    }
    let guard_page = VirtualPage { number: c0_exec };
    if !current_table.pml4().is_leaf_mapped(guard_page) {
        let parked = current_table.stop_using(&mut temp_page);
        return Err(MapErr::NotMapped { page: guard_page });
    }
    proof {
        assert(leaf_mapped_at(mm, x, c0));
    }

    // close the window and switch tables
    let old_root = current_table.stop_using(&mut temp_page);
    let ghost m3 = current_table@;
    proof {
        assert(ent(m3, x, 511) == ent(mm, x, 511));
        assert(entry_frame(ent(m3, x, 511)) == x);
        assert(resolve_at(m3, x, c0) == resolve_at(mm, x, c0));
        assert(leaf_mapped_at(m3, x, c0));
    }
    let retired = current_table.replace_with(new_table);
    let ghost m4 = current_table@;
    proof {
        assert forall|q: u64| user_page(q) && q != TEMP_PAGE_NUMBER implies #[trigger] resolve(
            m4,
            q,
        ) == resolve(mm, q) by {
            assert(resolve_at(m3, x, q) == resolve_at(mm, x, q));
            assert(resolve(m4, q) == resolve_at(m3, x, q));
        }
        assert(leaf_mapped_at(m4, x, c0) == leaf_mapped_at(m3, x, c0));
        assert(crate::model::map_plan(m4, eff_root(m4), c0) == -1);
        assert(identity_space(m4)) by {
            assert forall|q: u64|
                user_page(q) && (#[trigger] resolve(m4, q)) is Some implies resolve(
                m4,
                q,
            ).unwrap().0 == q by {
                if q != TEMP_PAGE_NUMBER {
                    assert(resolve(m4, q) == resolve(mm, q));
                } else {
                    assert(resolve_at(m3, x, q) == resolve_at(mm, x, q));
                    assert(resolve(m4, q) == resolve_at(m3, x, q));
                }
            }
        }
    }

    // turn the retired table's root frame into a guard page
    let guard = current_table.pml4_mut().unmap(guard_page, alloc);
    match guard {
        Ok(()) => {},
        Err(e) => {
            proof {
                assert(false);
            }
            return Err(e);
        },
    }
    proof {
        let mf = current_table@;
        assert(resolve(m4, c0) == Some(
            (entry_frame(l1e(m4, x, c0)), crate::entry::entry_flags(l1e(m4, x, c0))),
        ));
        assert(entry_frame(l1e(m4, x, c0)) == c0);
        assert(alloc.freed() == old(alloc).freed().push(c0));
        assert forall|i2: int, n: u64|
            #![trigger in_section(*params, i2, n), resolve(mf, n)]
            0 <= i2 < params.sections@.len() && params.sections@[i2].allocated && in_section(
            *params,
            i2,
            n,
        ) && n != c0 implies resolve(mf, n) == Some(
            (n, section_flags(params.sections@[i2])),
        ) by {
            lemma_mappable_user(n);
            assert(resolve(m4, n) == resolve(mm, n));
            assert(resolve(mm, n) == Some((n, section_flags(params.sections@[i2]))));
            assert(resolve_at(mf, x, n) == resolve_at(m4, x, n));
        }
        assert forall|n: u64| in_multiboot(*params, n) && n != c0 implies #[trigger] resolve(
            mf,
            n,
        ) == Some((n, PRESENT)) by {
            lemma_mappable_user(n);
            assert(resolve(mm, n) == Some((n, PRESENT)));
            assert(resolve(m4, n) == resolve(mm, n));
            assert(resolve_at(mf, x, n) == resolve_at(m4, x, n));
        }
        if VGA_BUFFER_FRAME != c0 {
            lemma_mappable_user(VGA_BUFFER_FRAME);
            assert(resolve(m4, VGA_BUFFER_FRAME) == resolve(mm, VGA_BUFFER_FRAME));
            assert(resolve_at(mf, x, VGA_BUFFER_FRAME) == resolve_at(m4, x, VGA_BUFFER_FRAME));
        }
        assert(resolve(mf, c0) is None);
    }
    Ok(retired)
}

/// One successful identity mapping extends the range facts of the
/// surrounding loop by one page: the new page translates to itself,
/// earlier pages still do, the rest of the machine is untouched, and
/// the space stays an identity mapping.
proof fn lemma_range_iteration(
    m0: MachineModel,
    mp: MachineModel,
    mn: MachineModel,
    lo: u64,
    n: u64,
    hi: u64,
    fb: u64,
)
    requires
        lo <= n < hi,
        0 < lo,
        hi < 0xf_f800_0000,
        fb & PRESENT == PRESENT,
        wf(mp),
        wf(mn),
        is_l4(m0, eff_root(m0)),
        is_l4(mp, eff_root(mp)),
        eff_root(mp) == eff_root(m0),
        eff_root(mn) == eff_root(m0),
        user_page(n),
        crate::model::map_plan(mp, eff_root(mp), n) >= 0,
        forall|g: u64| #[trigger] is_l4(mp, g) == is_l4(m0, g),
        forall|rr: u64, q: u64|
            is_l4(m0, rr) && user_page(q) && !(rr == eff_root(m0) && lo <= q < n)
                ==> #[trigger] resolve_at(mp, rr, q) == resolve_at(m0, rr, q) && leaf_mapped_at(
                mp,
                rr,
                q,
            ) == leaf_mapped_at(m0, rr, q),
        forall|k: u64| lo <= k < n ==> #[trigger] resolve(mp, k) == Some((k, fb)),
        forall|k: u64| lo <= k < n ==> #[trigger] resolve(m0, k) is None,
        identity_space(m0) ==> identity_space(mp),
        resolve(mn, n) == Some((n, fb | PRESENT)),
        forall|rr: u64, q: u64|
            is_l4(mp, rr) && user_page(q) && !(rr == eff_root(mp) && q == n)
                ==> #[trigger] resolve_at(mn, rr, q) == resolve_at(mp, rr, q) && leaf_mapped_at(
                mn,
                rr,
                q,
            ) == leaf_mapped_at(mp, rr, q),
    ensures
        forall|rr: u64, q: u64|
            is_l4(m0, rr) && user_page(q) && !(rr == eff_root(m0) && lo <= q < n + 1)
                ==> #[trigger] resolve_at(mn, rr, q) == resolve_at(m0, rr, q) && leaf_mapped_at(
                mn,
                rr,
                q,
            ) == leaf_mapped_at(m0, rr, q),
        forall|k: u64| lo <= k < n + 1 ==> #[trigger] resolve(mn, k) == Some((k, fb)),
        forall|k: u64| lo <= k < n + 1 ==> #[trigger] resolve(m0, k) is None,
        identity_space(m0) ==> identity_space(mn),
{
    assert(fb | 0x1 == fb) by (bit_vector)
        requires
            fb & 0x1 == 0x1,
    ;
    assert(resolve(mp, n) is None);
    assert(resolve_at(mp, eff_root(m0), n) == resolve_at(m0, eff_root(m0), n));
    assert forall|k: u64| lo <= k < n + 1 implies #[trigger] resolve(mn, k) == Some(
        (k, fb),
    ) by {
        if k < n {
            lemma_mappable_user(k);
            assert(user_page(k));
            assert(resolve(mp, k) == Some((k, fb)));
            assert(resolve_at(mn, eff_root(mp), k) == resolve_at(mp, eff_root(mp), k));
        }
    }
    lemma_preserve_suffix(m0, mp, mn, lo, n, hi);
    if identity_space(m0) {
        assert forall|q: u64|
            user_page(q) && (#[trigger] resolve(mn, q)) is Some implies resolve(
            mn,
            q,
        ).unwrap().0 == q by {
            if q != n {
                assert(resolve_at(mn, eff_root(mp), q) == resolve_at(mp, eff_root(mp), q));
                assert(resolve(mn, q) == resolve(mp, q));
                assert(identity_space(mp));
            }
        }
    }
}

/// A single mapping inside the range cannot fail while the whole
/// range was unmapped at the start and enough frames remain: the page
/// is still unmapped when its turn comes, so the only failure left is
/// exhaustion, which the frame budget rules out.
proof fn lemma_range_fail(
    m0: MachineModel,
    mp: MachineModel,
    lo: u64,
    n: u64,
    hi: u64,
    av0: int,
    avp: int,
)
    requires
        lo <= n < hi,
        is_l4(m0, eff_root(m0)),
        eff_root(mp) == eff_root(m0),
        user_page(n),
        forall|g: u64| #[trigger] is_l4(mp, g) == is_l4(m0, g),
        forall|rr: u64, q: u64|
            is_l4(m0, rr) && user_page(q) && !(rr == eff_root(m0) && lo <= q < n)
                ==> #[trigger] resolve_at(mp, rr, q) == resolve_at(m0, rr, q) && leaf_mapped_at(
                mp,
                rr,
                q,
            ) == leaf_mapped_at(mp, rr, q),
        avp >= av0 - 3 * (n - lo),
        crate::model::map_plan(mp, eff_root(mp), n) == -1 || crate::model::map_plan(
            mp,
            eff_root(mp),
            n,
        ) == -2 || avp < crate::model::map_plan(mp, eff_root(mp), n),
    ensures
        !((forall|k: u64| lo <= k < hi ==> #[trigger] resolve(m0, k) is None) && av0 >= 3 * (hi
            - lo)),
{
    if (forall|k: u64| lo <= k < hi ==> #[trigger] resolve(m0, k) is None) && av0 >= 3 * (hi
        - lo) {
        assert(resolve(m0, n) is None);
        assert(resolve_at(mp, eff_root(m0), n) == resolve_at(m0, eff_root(m0), n));
        assert(resolve(mp, n) is None);
        assert(crate::model::map_plan(mp, eff_root(mp), n) >= 0);
        assert(avp >= 3 * (hi - n));
        assert(false);
    }
}

/// A failed identity mapping inside the range leaves the composed
/// range facts in force: nothing outside the attempted range changed,
/// and the space is still an identity mapping.
proof fn lemma_range_abort(
    m0: MachineModel,
    mp: MachineModel,
    mn: MachineModel,
    lo: u64,
    n: u64,
    hi: u64,
)
    requires
        lo <= n < hi,
        is_l4(m0, eff_root(m0)),
        is_l4(mp, eff_root(mp)),
        eff_root(mp) == eff_root(m0),
        eff_root(mn) == eff_root(m0),
        user_page(n),
        forall|g: u64| #[trigger] is_l4(mp, g) == is_l4(m0, g),
        forall|rr: u64, q: u64|
            is_l4(m0, rr) && user_page(q) && !(rr == eff_root(m0) && lo <= q < n)
                ==> #[trigger] resolve_at(mp, rr, q) == resolve_at(m0, rr, q) && leaf_mapped_at(
                mp,
                rr,
                q,
            ) == leaf_mapped_at(m0, rr, q),
        identity_space(m0) ==> identity_space(mp),
        resolve(mn, n) == resolve(mp, n),
        forall|rr: u64, q: u64|
            is_l4(mp, rr) && user_page(q) && !(rr == eff_root(mp) && q == n)
                ==> #[trigger] resolve_at(mn, rr, q) == resolve_at(mp, rr, q) && leaf_mapped_at(
                mn,
                rr,
                q,
            ) == leaf_mapped_at(mp, rr, q),
    ensures
        forall|rr: u64, q: u64|
            is_l4(m0, rr) && user_page(q) && !(rr == eff_root(m0) && lo <= q < hi)
                ==> #[trigger] resolve_at(mn, rr, q) == resolve_at(m0, rr, q) && leaf_mapped_at(
                mn,
                rr,
                q,
            ) == leaf_mapped_at(m0, rr, q),
        identity_space(m0) ==> identity_space(mn),
{
    lemma_preserve_suffix(m0, mp, mn, lo, n, hi);
    if identity_space(m0) {
        assert forall|q: u64|
            user_page(q) && (#[trigger] resolve(mn, q)) is Some implies resolve(
            mn,
            q,
        ).unwrap().0 == q by {
            if q != n {
                assert(resolve_at(mn, eff_root(mp), q) == resolve_at(mp, eff_root(mp), q));
                assert(resolve(mn, q) == resolve(mp, q));
            }
            assert(identity_space(mp));
        }
    }
}

/// After identity-mapping a range inside the window, the bookkeeping
/// facts of the remap procedure survive: the temporary binding lives
/// in the old hierarchy, which mapping through the window never
/// touches.
proof fn lemma_remap_step(
    ms: MachineModel,
    mn: MachineModel,
    c0: u64,
    x: u64,
    lo: u64,
    hi: u64,
)
    requires
        wf(ms),
        wf(mn),
        ms.cr3 == c0,
        mn.cr3 == c0,
        is_l4(ms, c0),
        is_l4(ms, x),
        eff_root(ms) == x,
        eff_root(mn) == x,
        x != c0,
        user_page(TEMP_PAGE_NUMBER),
        leaf_mapped_at(ms, c0, TEMP_PAGE_NUMBER),
        entry_frame(l1e(ms, c0, TEMP_PAGE_NUMBER)) == c0,
        forall|g: u64| #[trigger] is_l4(mn, g) == is_l4(ms, g),
        forall|rr: u64, q: u64|
            is_l4(ms, rr) && user_page(q) && !(rr == x && lo <= q < hi) ==> #[trigger] resolve_at(
                mn,
                rr,
                q,
            ) == resolve_at(ms, rr, q) && leaf_mapped_at(mn, rr, q) == leaf_mapped_at(ms, rr, q),
    ensures
        is_l4(mn, c0),
        is_l4(mn, x),
        leaf_mapped_at(mn, c0, TEMP_PAGE_NUMBER),
        entry_frame(l1e(mn, c0, TEMP_PAGE_NUMBER)) == c0,
{
    assert(resolve_at(mn, c0, TEMP_PAGE_NUMBER) == resolve_at(ms, c0, TEMP_PAGE_NUMBER));
    assert(leaf_mapped_at(mn, c0, TEMP_PAGE_NUMBER));
    assert(entry_frame(l1e(mn, c0, TEMP_PAGE_NUMBER)) == entry_frame(
        l1e(ms, c0, TEMP_PAGE_NUMBER),
    ));
}

/// One mapping step inside a range keeps the composed preservation
/// quantifier of the range: anything outside the whole range, or
/// under another root, translates as at the start.
proof fn lemma_preserve_suffix(
    m0: MachineModel,
    mp: MachineModel,
    mn: MachineModel,
    lo: u64,
    n: u64,
    hi: u64,
)
    requires
        lo <= n < hi,
        forall|g: u64| #[trigger] is_l4(mp, g) == is_l4(m0, g),
        eff_root(mp) == eff_root(m0),
        forall|rr: u64, q: u64|
            is_l4(m0, rr) && user_page(q) && !(rr == eff_root(m0) && lo <= q < n)
                ==> #[trigger] resolve_at(mp, rr, q) == resolve_at(m0, rr, q) && leaf_mapped_at(
                mp,
                rr,
                q,
            ) == leaf_mapped_at(m0, rr, q),
        forall|rr: u64, q: u64|
            is_l4(mp, rr) && user_page(q) && !(rr == eff_root(mp) && q == n)
                ==> #[trigger] resolve_at(mn, rr, q) == resolve_at(mp, rr, q) && leaf_mapped_at(
                mn,
                rr,
                q,
            ) == leaf_mapped_at(mp, rr, q),
    ensures
        forall|rr: u64, q: u64|
            is_l4(m0, rr) && user_page(q) && !(rr == eff_root(m0) && lo <= q < hi)
                ==> #[trigger] resolve_at(mn, rr, q) == resolve_at(m0, rr, q) && leaf_mapped_at(
                mn,
                rr,
                q,
            ) == leaf_mapped_at(m0, rr, q),
{
    assert forall|rr: u64, q: u64|
        is_l4(m0, rr) && user_page(q) && !(rr == eff_root(m0) && lo <= q < hi) implies
        #[trigger] resolve_at(mn, rr, q) == resolve_at(m0, rr, q) && leaf_mapped_at(mn, rr, q)
        == leaf_mapped_at(m0, rr, q) by {
        assert(resolve_at(mp, rr, q) == resolve_at(m0, rr, q));
        assert(resolve_at(mn, rr, q) == resolve_at(mp, rr, q));
    }
}

} // verus!
