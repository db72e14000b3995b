//! The mapping operations, exercised on a small machine.

use paging::active::ActivePageTable;
use paging::entry::{EntryFlags, PRESENT, WRITABLE};
use paging::frame_alloc::{FrameAllocator, FreeListAllocator};
use paging::mapper::MapErr;
use paging::page::{Frame, VirtualPage};

fn machine() -> ActivePageTable {
    ActivePageTable::new(Frame { number: 0x100 })
}

#[test]
fn identity_map_display_buffer_and_read_back() {
    let mut table = machine();
    let mut alloc = FreeListAllocator::new(vec![0x200, 0x201, 0x202, 0x203]);
    let frame = Frame { number: 0xb8 };
    let flags = EntryFlags { bits: WRITABLE };
    table
        .pml4_mut()
        .map(VirtualPage { number: 0xb8 }, frame, flags, &mut alloc)
        .unwrap();
    let got = table
        .pml4()
        .translate(paging::addr::VAddr(0xb8000))
        .unwrap();
    assert_eq!(got.0, 0xb8000);
    let page = table
        .pml4()
        .translate_page(VirtualPage { number: 0xb8 })
        .unwrap();
    assert_eq!(page.number, 0xb8);
}

#[test]
fn translate_adds_in_page_offset() {
    let mut table = machine();
    let mut alloc = FreeListAllocator::new(vec![0x200, 0x201, 0x202]);
    table
        .pml4_mut()
        .map(
            VirtualPage { number: 42 },
            Frame { number: 7 },
            EntryFlags { bits: 0 },
            &mut alloc,
        )
        .unwrap();
    let got = table
        .pml4()
        .translate(paging::addr::VAddr(42 * 4096 + 123))
        .unwrap();
    assert_eq!(got.0, 7 * 4096 + 123);
    assert!(table.pml4().translate(paging::addr::VAddr(41 * 4096)).is_none());
}

#[test]
fn map_twice_reports_already_mapped_and_keeps_mapping() {
    let mut table = machine();
    let mut alloc = FreeListAllocator::new(vec![0x200, 0x201, 0x202, 0x203]);
    let page = VirtualPage { number: 5 };
    table
        .pml4_mut()
        .map(page, Frame { number: 9 }, EntryFlags { bits: 0 }, &mut alloc)
        .unwrap();
    let second = table
        .pml4_mut()
        .map(page, Frame { number: 10 }, EntryFlags { bits: 0 }, &mut alloc);
    assert!(matches!(second, Err(MapErr::AlreadyMapped { .. })));
    let still = table.pml4().translate_page(page).unwrap();
    assert_eq!(still.number, 9);
}

#[test]
fn unmap_releases_frame_exactly_once() {
    let mut table = machine();
    let mut alloc = FreeListAllocator::new(vec![0x200, 0x201, 0x202]);
    let page = VirtualPage { number: 77 };
    table
        .pml4_mut()
        .map(page, Frame { number: 33 }, EntryFlags { bits: WRITABLE }, &mut alloc)
        .unwrap();
    table.pml4_mut().unmap(page, &mut alloc).unwrap();
    assert_eq!(alloc.retired_frames(), &vec![33u64]);
    assert!(table.pml4().translate_page(page).is_none());
}

#[test]
fn unmap_unmapped_page_reports_not_mapped() {
    let mut table = machine();
    let mut alloc = FreeListAllocator::new(vec![0x200, 0x201, 0x202]);
    let page = VirtualPage { number: 4 };
    table
        .pml4_mut()
        .map(page, Frame { number: 9 }, EntryFlags { bits: 0 }, &mut alloc)
        .unwrap();
    // same leaf table, different slot: leaf entry unused
    let r = table.pml4_mut().unmap(VirtualPage { number: 5 }, &mut alloc);
    assert!(matches!(r, Err(MapErr::NotMapped { .. })));
    // missing directories on the path
    let r2 = table.pml4_mut().unmap(VirtualPage { number: 1 << 30 }, &mut alloc);
    assert!(matches!(r2, Err(MapErr::UnsupportedHugePage { .. })));
}

#[test]
fn map_to_any_exhausted_allocator_fails_cleanly() {
    let mut table = machine();
    let mut alloc = FreeListAllocator::new(vec![]);
    let page = VirtualPage { number: 12 };
    let r = table
        .pml4_mut()
        .map_to_any(page, EntryFlags { bits: PRESENT }, &mut alloc);
    assert!(matches!(r, Err(MapErr::AllocationFailed { .. })));
    assert!(table.pml4().translate_page(page).is_none());
    assert_eq!(alloc.remaining(), 0);
}
