use kernel_shm::addr::{VirtAddr, VirtRegion, PAGE_SIZE};
use kernel_shm::error::Overlap;
use kernel_shm::mappings::MappingSet;
use kernel_shm::vma::{AttachmentId, ShmId, ShmTag, VmFlags, Vma};

fn rw() -> VmFlags {
    VmFlags { read: true, write: true, execute: false, shared: false }
}

fn shared_rw() -> VmFlags {
    VmFlags { read: true, write: true, execute: false, shared: true }
}

fn region(start: usize, pages: usize) -> VirtRegion {
    VirtRegion::new(VirtAddr::new(start), pages * PAGE_SIZE).unwrap()
}

fn tag(id: usize, attach: usize) -> ShmTag {
    ShmTag { shm_id: ShmId(id), shm_attach: AttachmentId(attach) }
}

#[test]
fn virt_addr_keeps_its_value() {
    let a = VirtAddr::new(0x7123);
    assert_eq!(a.data(), 0x7123);
    assert!(!a.is_page_aligned());
    assert_eq!(a.page_start(), 0x7000);
    assert!(VirtAddr::new(0x7000).is_page_aligned());
    assert_eq!(VirtAddr::new(0).page_start(), 0);
    assert_eq!(VirtAddr::new(usize::MAX).page_start(), usize::MAX - 4095);
}

#[test]
fn region_bounds_and_size() {
    let r = region(0x7000, 2);
    assert_eq!(r.start(), VirtAddr::new(0x7000));
    assert_eq!(r.end(), VirtAddr::new(0x9000));
    assert_eq!(r.size(), 8192);
}

#[test]
fn region_must_be_whole_pages() {
    assert_eq!(VirtRegion::new(VirtAddr::new(0x7000), 0), None);
    assert_eq!(VirtRegion::new(VirtAddr::new(0x7001), 4096), None);
    assert_eq!(VirtRegion::new(VirtAddr::new(0x7000), 4095), None);
    assert!(VirtRegion::new(VirtAddr::new(0), 4096).is_some());
}

#[test]
fn region_must_end_inside_the_address_range() {
    let last_page = usize::MAX - 4095;
    assert_eq!(VirtRegion::new(VirtAddr::new(last_page), 4096), None);
    assert_eq!(VirtRegion::new(VirtAddr::new(last_page), 8192), None);
    let below = VirtRegion::new(VirtAddr::new(last_page - 4096), 4096).unwrap();
    assert_eq!(below.end(), VirtAddr::new(last_page));
}

#[test]
fn region_between_two_addresses() {
    let r = VirtRegion::between(VirtAddr::new(0x1000), VirtAddr::new(0x3000)).unwrap();
    assert_eq!(r, region(0x1000, 2));
    assert_eq!(VirtRegion::between(VirtAddr::new(0x3000), VirtAddr::new(0x3000)), None);
    assert_eq!(VirtRegion::between(VirtAddr::new(0x3000), VirtAddr::new(0x1000)), None);
    assert_eq!(VirtRegion::between(VirtAddr::new(0x1000), VirtAddr::new(0x3001)), None);
    assert_eq!(VirtRegion::between(VirtAddr::new(0x1001), VirtAddr::new(0x3000)), None);
}

#[test]
fn region_is_half_open() {
    let r = region(0x7000, 1);
    assert!(r.contains(VirtAddr::new(0x7000)));
    assert!(r.contains(VirtAddr::new(0x7fff)));
    assert!(!r.contains(VirtAddr::new(0x8000)));
    assert!(!r.contains(VirtAddr::new(0x6fff)));
}

#[test]
fn adjacent_regions_do_not_collide() {
    let a = region(0x7000, 1);
    let b = region(0x8000, 1);
    let c = region(0x7000, 2);
    assert!(!a.collide(&b));
    assert!(!b.collide(&a));
    assert!(a.collide(&c));
    assert!(c.collide(&b));
    assert!(a.collide(&a));
}

#[test]
fn descriptor_tag_needs_both_identities() {
    let r = region(0x7000, 1);
    let private = Vma::new(r, rw());
    assert_eq!(private.shm_tag(), None);
    assert_eq!(private.shm_id, None);
    assert_eq!(private.shm_attach, None);
    let shm = Vma::new_shm(r, shared_rw(), tag(42, 7));
    assert_eq!(shm.shm_tag(), Some(tag(42, 7)));
    assert_eq!(shm.shm_id, Some(ShmId(42)));
    assert_eq!(shm.shm_attach, Some(AttachmentId(7)));
    let half = Vma { region: r, flags: rw(), shm_id: Some(ShmId(42)), shm_attach: None };
    assert_eq!(half.shm_tag(), None);
    assert!(!half.has_tag(tag(42, 7)));
}

#[test]
fn descriptor_matches_only_its_own_tag() {
    let v = Vma::new_shm(region(0x7000, 1), shared_rw(), tag(42, 7));
    assert!(v.has_tag(tag(42, 7)));
    assert!(!v.has_tag(tag(42, 8)));
    assert!(!v.has_tag(tag(43, 7)));
    assert!(!Vma::new(region(0x7000, 1), rw()).has_tag(tag(42, 7)));
}

#[test]
fn empty_set_holds_nothing() {
    let m = MappingSet::new();
    assert!(m.is_empty());
    assert_eq!(m.len(), 0);
    assert_eq!(m.contains(VirtAddr::new(0x7000)), None);
    assert_eq!(m.iter_vmas(), vec![]);
}

#[test]
fn lookup_finds_the_region_that_holds_the_address() {
    let mut m = MappingSet::new();
    let a = Vma::new(region(0x1000, 1), rw());
    let b = Vma::new(region(0x4000, 2), rw());
    let c = Vma::new(region(0x9000, 1), rw());
    assert_eq!(m.insert(b), Ok(()));
    assert_eq!(m.insert(c), Ok(()));
    assert_eq!(m.insert(a), Ok(()));
    assert_eq!(m.len(), 3);
    assert!(!m.is_empty());
    assert_eq!(m.contains(VirtAddr::new(0x1000)), Some(a));
    assert_eq!(m.contains(VirtAddr::new(0x1fff)), Some(a));
    assert_eq!(m.contains(VirtAddr::new(0x2000)), None);
    assert_eq!(m.contains(VirtAddr::new(0x4000)), Some(b));
    assert_eq!(m.contains(VirtAddr::new(0x5abc)), Some(b));
    assert_eq!(m.contains(VirtAddr::new(0x6000)), None);
    assert_eq!(m.contains(VirtAddr::new(0x9000)), Some(c));
    assert_eq!(m.contains(VirtAddr::new(0xa000)), None);
    assert_eq!(m.contains(VirtAddr::new(0)), None);
    assert_eq!(m.contains(VirtAddr::new(usize::MAX)), None);
}

#[test]
fn iteration_is_in_address_order() {
    let mut m = MappingSet::new();
    let a = Vma::new(region(0x1000, 1), rw());
    let b = Vma::new(region(0x4000, 2), rw());
    let c = Vma::new(region(0x9000, 1), rw());
    let d = Vma::new(region(0x2000, 2), rw());
    m.insert(c).unwrap();
    m.insert(a).unwrap();
    m.insert(d).unwrap();
    m.insert(b).unwrap();
    assert_eq!(m.iter_vmas(), vec![a, d, b, c]);
}

#[test]
fn overlapping_insert_is_rejected_and_changes_nothing() {
    let mut m = MappingSet::new();
    let a = Vma::new(region(0x4000, 2), rw());
    m.insert(a).unwrap();
    assert_eq!(m.insert(Vma::new(region(0x4000, 2), shared_rw())), Err(Overlap));
    assert_eq!(m.insert(Vma::new(region(0x5000, 1), rw())), Err(Overlap));
    assert_eq!(m.insert(Vma::new(region(0x3000, 2), rw())), Err(Overlap));
    assert_eq!(m.insert(Vma::new(region(0x5000, 4), rw())), Err(Overlap));
    assert_eq!(m.insert(Vma::new(region(0x1000, 16), rw())), Err(Overlap));
    assert_eq!(m.insert(a), Err(Overlap));
    assert_eq!(m.iter_vmas(), vec![a]);
    assert_eq!(m.len(), 1);
}

#[test]
fn adjacent_insert_is_accepted() {
    let mut m = MappingSet::new();
    let a = Vma::new(region(0x4000, 2), rw());
    let before = Vma::new(region(0x3000, 1), rw());
    let after = Vma::new(region(0x6000, 1), rw());
    m.insert(a).unwrap();
    assert_eq!(m.insert(before), Ok(()));
    assert_eq!(m.insert(after), Ok(()));
    assert_eq!(m.iter_vmas(), vec![before, a, after]);
}

#[test]
fn stored_regions_never_intersect() {
    let mut m = MappingSet::new();
    let starts = [0x9000usize, 0x1000, 0x8000, 0x3000, 0x2000, 0xa000, 0x1000, 0x7000, 0x4000];
    let pages = [2usize, 3, 2, 1, 4, 1, 1, 1, 3];
    for i in 0..starts.len() {
        let before = m.iter_vmas();
        let v = Vma::new(region(starts[i], pages[i]), rw());
        let clash = before.iter().any(|w| w.region.collide(&v.region));
        let r = m.insert(v);
        assert_eq!(r.is_err(), clash);
        let now = m.iter_vmas();
        if clash {
            assert_eq!(now, before);
        } else {
            assert_eq!(now.len(), before.len() + 1);
        }
        for a in 0..now.len() {
            for b in (a + 1)..now.len() {
                assert!(!now[a].region.collide(&now[b].region));
                assert!(now[a].region.end().data() <= now[b].region.start().data());
            }
        }
    }
    assert_eq!(m.len(), 4);
}

#[test]
fn remove_needs_the_exact_bounds() {
    let mut m = MappingSet::new();
    let a = Vma::new(region(0x1000, 1), rw());
    let b = Vma::new(region(0x4000, 2), rw());
    m.insert(a).unwrap();
    m.insert(b).unwrap();
    assert_eq!(m.remove(&region(0x4000, 1)), None);
    assert_eq!(m.remove(&region(0x5000, 1)), None);
    assert_eq!(m.remove(&region(0x3000, 3)), None);
    assert_eq!(m.remove(&region(0x8000, 1)), None);
    assert_eq!(m.iter_vmas(), vec![a, b]);
    assert_eq!(m.remove(&region(0x4000, 2)), Some(b));
    assert_eq!(m.iter_vmas(), vec![a]);
    assert_eq!(m.remove(&region(0x4000, 2)), None);
    assert_eq!(m.remove(&region(0x1000, 1)), Some(a));
    assert!(m.is_empty());
}

#[test]
fn removed_region_can_be_inserted_again() {
    let mut m = MappingSet::new();
    let a = Vma::new(region(0x4000, 2), rw());
    m.insert(a).unwrap();
    assert_eq!(m.remove(&a.region), Some(a));
    assert_eq!(m.contains(VirtAddr::new(0x4000)), None);
    let b = Vma::new(region(0x5000, 1), shared_rw());
    assert_eq!(m.insert(b), Ok(()));
    assert_eq!(m.contains(VirtAddr::new(0x5000)), Some(b));
}

#[test]
fn regions_of_one_attach_event_are_found_together() {
    let mut m = MappingSet::new();
    let first = Vma::new_shm(region(0x7000, 1), shared_rw(), tag(42, 1));
    let second = Vma::new_shm(region(0x8000, 1), shared_rw(), tag(42, 1));
    let other_attach = Vma::new_shm(region(0xa000, 1), shared_rw(), tag(42, 2));
    let other_segment = Vma::new_shm(region(0xc000, 1), shared_rw(), tag(43, 1));
    let private = Vma::new(region(0x1000, 1), rw());
    m.insert(second).unwrap();
    m.insert(other_segment).unwrap();
    m.insert(private).unwrap();
    m.insert(first).unwrap();
    m.insert(other_attach).unwrap();
    assert_eq!(m.with_tag(tag(42, 1)), vec![first, second]);
    assert_eq!(m.with_tag(tag(42, 2)), vec![other_attach]);
    assert_eq!(m.with_tag(tag(43, 1)), vec![other_segment]);
    assert_eq!(m.with_tag(tag(43, 2)), vec![]);
}

#[test]
fn range_query_gives_the_regions_that_intersect() {
    let mut m = MappingSet::new();
    let a = Vma::new(region(0x1000, 1), rw());
    let b = Vma::new(region(0x4000, 2), rw());
    let c = Vma::new(region(0x6000, 1), rw());
    let d = Vma::new(region(0x9000, 1), rw());
    for v in [d, b, a, c] {
        m.insert(v).unwrap();
    }
    assert_eq!(m.conflicting(&region(0x5000, 2)), vec![b, c]);
    assert_eq!(m.conflicting(&region(0x1000, 16)), vec![a, b, c, d]);
    assert_eq!(m.conflicting(&region(0x2000, 2)), vec![]);
    assert_eq!(m.conflicting(&region(0x7000, 2)), vec![]);
    assert_eq!(m.conflicting(&region(0x9000, 1)), vec![d]);
    assert_eq!(m.conflicting(&region(0xa000, 1)), vec![]);
    assert_eq!(m.conflicting(&region(0, 2)), vec![a]);
    assert_eq!(MappingSet::new().conflicting(&region(0, 2)), vec![]);
}

#[test]
fn first_fit_takes_the_lowest_hole_that_is_large_enough() {
    let mut m = MappingSet::new();
    for v in [region(0x1000, 1), region(0x3000, 2), region(0x8000, 1)] {
        m.insert(Vma::new(v, rw())).unwrap();
    }
    assert_eq!(m.find_free(VirtAddr::new(0), PAGE_SIZE), Some(region(0, 1)));
    assert_eq!(m.find_free(VirtAddr::new(0x1000), PAGE_SIZE), Some(region(0x2000, 1)));
    assert_eq!(m.find_free(VirtAddr::new(0x1000), 2 * PAGE_SIZE), Some(region(0x5000, 2)));
    assert_eq!(m.find_free(VirtAddr::new(0x1000), 3 * PAGE_SIZE), Some(region(0x5000, 3)));
    assert_eq!(m.find_free(VirtAddr::new(0x1000), 4 * PAGE_SIZE), Some(region(0x9000, 4)));
    assert_eq!(m.find_free(VirtAddr::new(0x3800), PAGE_SIZE), Some(region(0x5000, 1)));
    assert_eq!(m.find_free(VirtAddr::new(0x5001), PAGE_SIZE), Some(region(0x6000, 1)));
    assert_eq!(m.find_free(VirtAddr::new(0x5001), 2 * PAGE_SIZE), Some(region(0x6000, 2)));
    assert_eq!(m.find_free(VirtAddr::new(0x7001), PAGE_SIZE), Some(region(0x9000, 1)));
    assert_eq!(MappingSet::new().find_free(VirtAddr::new(0x7000), PAGE_SIZE), Some(region(0x7000, 1)));
}

#[test]
fn first_fit_finds_nothing_for_a_size_that_is_no_region() {
    let m = MappingSet::new();
    assert_eq!(m.find_free(VirtAddr::new(0), 0), None);
    assert_eq!(m.find_free(VirtAddr::new(0), 100), None);
    assert_eq!(m.find_free(VirtAddr::new(0), PAGE_SIZE + 1), None);
}

#[test]
fn first_fit_stops_at_the_top_of_the_address_range() {
    let last_page = usize::MAX - 4095;
    let mut m = MappingSet::new();
    assert_eq!(m.find_free(VirtAddr::new(last_page), PAGE_SIZE), None);
    assert_eq!(m.find_free(VirtAddr::new(last_page + 1), PAGE_SIZE), None);
    assert_eq!(m.find_free(VirtAddr::new(usize::MAX), PAGE_SIZE), None);
    assert_eq!(
        m.find_free(VirtAddr::new(last_page - 4096), PAGE_SIZE),
        Some(region(last_page - 4096, 1))
    );
    assert_eq!(m.find_free(VirtAddr::new(last_page - 4096), 2 * PAGE_SIZE), None);
    m.insert(Vma::new(region(last_page - 4096, 1), rw())).unwrap();
    assert_eq!(m.find_free(VirtAddr::new(last_page - 4096), PAGE_SIZE), None);
    assert_eq!(
        m.find_free(VirtAddr::new(last_page - 8192), PAGE_SIZE),
        Some(region(last_page - 8192, 1))
    );
}
