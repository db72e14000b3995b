//! Index extraction from virtual addresses.

use paging::addr::VAddr;
use paging::page::{Frame, Page, PageRange, VirtualPage};

#[test]
fn address_zero_has_all_zero_indices() {
    let a = VAddr(0);
    assert_eq!(a.pml4_index(), 0);
    assert_eq!(a.pdpt_index(), 0);
    assert_eq!(a.pd_index(), 0);
    assert_eq!(a.pt_index(), 0);
}

#[test]
fn crossing_one_middle_directory_entry() {
    let a = VAddr(512 * 4096);
    assert_eq!(a.pd_index(), 1);
    assert_eq!(a.pt_index(), 0);
    assert_eq!(a.pdpt_index(), 0);
    assert_eq!(a.pml4_index(), 0);
}

#[test]
fn three_hundredth_middle_directory_entry() {
    let a = VAddr(300 * 512 * 4096);
    assert_eq!(a.pd_index(), 300);
}

#[test]
fn frame_base_and_containing_round_trip() {
    let f = Frame { number: 0xb8 };
    assert_eq!(f.base_addr().0, 0xb8000);
    assert_eq!(Frame::containing(paging::addr::PAddr(0xb8123)).number, 0xb8);
}

#[test]
fn page_range_iterates_half_open() {
    let r = PageRange::range_between(
        VirtualPage { number: 3 },
        VirtualPage { number: 6 },
    );
    let mut it = r.iter();
    let mut seen: Vec<u64> = Vec::new();
    while let Some(p) = it.next() {
        seen.push(p.number);
    }
    assert_eq!(seen, vec![3, 4, 5]);
}
