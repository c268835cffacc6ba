use kernel_shm::addr::{VirtAddr, VirtRegion, PAGE_SIZE};
use kernel_shm::page::{PageEntry, PageFlushAll, PageTable};
use kernel_shm::vma::VmFlags;

fn entry(write: bool) -> PageEntry {
    PageEntry { flags: VmFlags { read: true, write, execute: false, shared: true } }
}

fn region(start: usize, pages: usize) -> VirtRegion {
    VirtRegion::new(VirtAddr::new(start), pages * PAGE_SIZE).unwrap()
}

#[test]
fn new_table_maps_nothing() {
    let t = PageTable::new();
    assert_eq!(t.lookup(VirtAddr::new(0)), None);
    assert_eq!(t.lookup(VirtAddr::new(0x7000)), None);
    assert!(!t.is_mapped(VirtAddr::new(0x7000)));
}

#[test]
fn map_range_covers_each_page_of_the_region() {
    let mut t = PageTable::new();
    t.map_range(&region(0x7000, 3), entry(true));
    assert_eq!(t.lookup(VirtAddr::new(0x6fff)), None);
    assert_eq!(t.lookup(VirtAddr::new(0x7000)), Some(entry(true)));
    assert_eq!(t.lookup(VirtAddr::new(0x7abc)), Some(entry(true)));
    assert_eq!(t.lookup(VirtAddr::new(0x8000)), Some(entry(true)));
    assert_eq!(t.lookup(VirtAddr::new(0x9fff)), Some(entry(true)));
    assert_eq!(t.lookup(VirtAddr::new(0xa000)), None);
    assert!(t.is_mapped(VirtAddr::new(0x9000)));
    assert!(!t.is_mapped(VirtAddr::new(0xa000)));
}

#[test]
fn map_range_replaces_entries_in_its_range_only() {
    let mut t = PageTable::new();
    t.map_range(&region(0x7000, 3), entry(true));
    t.map_range(&region(0x8000, 1), entry(false));
    assert_eq!(t.lookup(VirtAddr::new(0x7000)), Some(entry(true)));
    assert_eq!(t.lookup(VirtAddr::new(0x8000)), Some(entry(false)));
    assert_eq!(t.lookup(VirtAddr::new(0x9000)), Some(entry(true)));
}

#[test]
fn unmap_range_clears_its_pages_and_notes_the_range() {
    let mut t = PageTable::new();
    let mut flusher = PageFlushAll::new();
    t.map_range(&region(0x7000, 4), entry(true));
    t.unmap_range(&region(0x8000, 2), &mut flusher);
    assert_eq!(t.lookup(VirtAddr::new(0x7000)), Some(entry(true)));
    assert_eq!(t.lookup(VirtAddr::new(0x8000)), None);
    assert_eq!(t.lookup(VirtAddr::new(0x9fff)), None);
    assert_eq!(t.lookup(VirtAddr::new(0xa000)), Some(entry(true)));
    assert_eq!(flusher.flush().ranges(), vec![region(0x8000, 2)]);
}

#[test]
fn unmap_of_unmapped_range_changes_no_entry() {
    let mut t = PageTable::new();
    let mut flusher = PageFlushAll::new();
    t.map_range(&region(0x7000, 1), entry(true));
    t.unmap_range(&region(0x1000, 2), &mut flusher);
    assert_eq!(t.lookup(VirtAddr::new(0x7000)), Some(entry(true)));
    assert_eq!(flusher.flush().ranges(), vec![region(0x1000, 2)]);
}

#[test]
fn table_reaches_the_last_page_below_the_top() {
    let start = usize::MAX - 2 * PAGE_SIZE + 1;
    let r = region(start, 1);
    let mut t = PageTable::new();
    let mut flusher = PageFlushAll::new();
    t.map_range(&r, entry(false));
    assert_eq!(t.lookup(VirtAddr::new(start + 17)), Some(entry(false)));
    assert_eq!(t.lookup(VirtAddr::new(usize::MAX)), None);
    t.unmap_range(&r, &mut flusher);
    assert_eq!(t.lookup(VirtAddr::new(start)), None);
}

#[test]
fn empty_batch_flushes_to_an_empty_pass() {
    let pass = PageFlushAll::new().flush();
    assert_eq!(pass.ranges(), vec![]);
    assert!(!pass.covers(VirtAddr::new(0x7000)));
}

#[test]
fn one_pass_covers_every_recorded_range() {
    let mut flusher = PageFlushAll::new();
    flusher.record(region(0x7000, 1));
    flusher.record(region(0x3000, 2));
    flusher.record(region(0x8000, 1));
    let pass = flusher.flush();
    assert_eq!(pass.ranges(), vec![region(0x7000, 1), region(0x3000, 2), region(0x8000, 1)]);
    assert!(pass.covers(VirtAddr::new(0x7000)));
    assert!(pass.covers(VirtAddr::new(0x8fff)));
    assert!(pass.covers(VirtAddr::new(0x4123)));
    assert!(!pass.covers(VirtAddr::new(0x5000)));
    assert!(!pass.covers(VirtAddr::new(0x9000)));
    assert!(!pass.covers(VirtAddr::new(0x2fff)));
}
