//! The kernel remap procedure, end to end on a small machine.

use paging::active::ActivePageTable;
use paging::addr::{PAddr, VAddr};
use paging::frame_alloc::FreeListAllocator;
use paging::mapper::MapErr;
use paging::page::Frame;
use paging::remap::{kernel_remap, InitParams, SectionInfo};

fn boot_machine() -> ActivePageTable {
    ActivePageTable::new(Frame { number: 0x100 })
}

fn frames() -> Vec<u64> {
    (0x300u64..0x310u64).collect()
}

#[test]
fn kernel_remap_rebuilds_identity_mappings_and_guards_old_root() {
    let mut table = boot_machine();
    let mut alloc = FreeListAllocator::new(frames());
    let params = InitParams {
        sections: vec![
            SectionInfo {
                start: PAddr(0x10000),
                end: PAddr(0x12000),
                writable: false,
                executable: true,
                allocated: true,
            },
            SectionInfo {
                start: PAddr(0x12000),
                end: PAddr(0x13000),
                writable: true,
                executable: false,
                allocated: true,
            },
            SectionInfo {
                start: PAddr(0x15001),
                end: PAddr(0x16000),
                writable: false,
                executable: false,
                allocated: false,
            },
        ],
        // covers the old root frame, so the guard step has a mapping
        // to remove
        multiboot_start: PAddr(0x100000),
        multiboot_end: PAddr(0x102000),
    };
    let retired = kernel_remap(&mut table, &params, &mut alloc).unwrap();
    assert_eq!(retired.frame().number, 0x100);
    // the new table translates every section address identically
    assert_eq!(table.pml4().translate(VAddr(0x10000)).unwrap().0, 0x10000);
    assert_eq!(table.pml4().translate(VAddr(0x12abc)).unwrap().0, 0x12abc);
    // the display buffer is reachable
    assert_eq!(table.pml4().translate(VAddr(0xb8000)).unwrap().0, 0xb8000);
    // the boot information stayed reachable, except the guard page
    assert_eq!(table.pml4().translate(VAddr(0x101000)).unwrap().0, 0x101000);
    // the old root frame is now an unmapped guard page
    assert!(table.pml4().translate(VAddr(0x100000)).is_none());
    // and was released to the allocator exactly once
    assert_eq!(alloc.retired_frames(), &vec![0x100u64]);
}

#[test]
fn kernel_remap_rejects_misaligned_section_before_switching() {
    let mut table = boot_machine();
    let mut alloc = FreeListAllocator::new(frames());
    let params = InitParams {
        sections: vec![SectionInfo {
            start: PAddr(0x10001),
            end: PAddr(0x12000),
            writable: true,
            executable: false,
            allocated: true,
        }],
        multiboot_start: PAddr(0x100000),
        multiboot_end: PAddr(0x101000),
    };
    let r = kernel_remap(&mut table, &params, &mut alloc);
    assert!(matches!(r, Err(MapErr::MisalignedRegion { .. })));
    // the register still holds the old table
    assert_eq!(table.pml4().root_register(), 0x100);
    assert!(alloc.retired_frames().is_empty());
}

#[test]
fn kernel_remap_reports_exhaustion_without_switching() {
    let mut table = boot_machine();
    let mut alloc = FreeListAllocator::new(vec![0x300]);
    let params = InitParams {
        sections: vec![SectionInfo {
            start: PAddr(0x10000),
            end: PAddr(0x11000),
            writable: true,
            executable: false,
            allocated: true,
        }],
        multiboot_start: PAddr(0x100000),
        multiboot_end: PAddr(0x101000),
    };
    let r = kernel_remap(&mut table, &params, &mut alloc);
    assert!(matches!(r, Err(MapErr::AllocationFailed { .. })));
    assert_eq!(table.pml4().root_register(), 0x100);
    assert!(alloc.retired_frames().is_empty());
}
