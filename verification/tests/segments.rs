use kernel_shm::error::ErrorKind;
use kernel_shm::shm::{ShmFlags, ShmManager, ShmSegment};
use kernel_shm::vma::{AttachmentId, ShmId, ShmTag};

#[test]
fn new_manager_has_no_segment() {
    let m = ShmManager::new();
    assert_eq!(m.get(ShmId(42)), None);
    assert!(m.can_attach());
}

#[test]
fn created_segment_is_unattached() {
    let mut m = ShmManager::new();
    assert!(m.create(ShmId(42), 8192, ShmFlags(0o600)));
    assert_eq!(
        m.get(ShmId(42)),
        Some(ShmSegment {
            size: 8192,
            flags: ShmFlags(0o600),
            marked_for_removal: false,
            attach_count: 0,
        })
    );
    assert_eq!(m.get(ShmId(41)), None);
}

#[test]
fn identifier_in_use_is_not_given_out_again() {
    let mut m = ShmManager::new();
    assert!(m.create(ShmId(42), 8192, ShmFlags(0o600)));
    m.attach(ShmId(42)).unwrap();
    assert!(!m.create(ShmId(42), 4096, ShmFlags(0)));
    let s = m.get(ShmId(42)).unwrap();
    assert_eq!(s.size, 8192);
    assert_eq!(s.flags, ShmFlags(0o600));
    assert_eq!(s.attach_count, 1);
}

#[test]
fn attach_counts_and_names_each_attachment() {
    let mut m = ShmManager::new();
    m.create(ShmId(42), 4096, ShmFlags(0));
    m.create(ShmId(43), 4096, ShmFlags(0));
    let a = m.attach(ShmId(42)).unwrap();
    let b = m.attach(ShmId(42)).unwrap();
    let c = m.attach(ShmId(43)).unwrap();
    assert_eq!(a, AttachmentId(0));
    assert_eq!(b, AttachmentId(1));
    assert_eq!(c, AttachmentId(2));
    assert_eq!(m.get(ShmId(42)).unwrap().attach_count, 2);
    assert_eq!(m.get(ShmId(43)).unwrap().attach_count, 1);
}

#[test]
fn attach_to_unknown_segment_is_not_found() {
    let mut m = ShmManager::new();
    m.create(ShmId(42), 4096, ShmFlags(0));
    assert_eq!(m.attach(ShmId(7)), Err(ErrorKind::NotFound));
    assert_eq!(m.get(ShmId(42)).unwrap().attach_count, 0);
    assert_eq!(m.attach(ShmId(42)), Ok(AttachmentId(0)));
}

#[test]
fn detach_from_unknown_segment_is_not_found() {
    let mut m = ShmManager::new();
    assert_eq!(m.detach(ShmId(42)), Err(ErrorKind::NotFound));
    m.create(ShmId(42), 4096, ShmFlags(0));
    assert_eq!(m.detach(ShmId(43)), Err(ErrorKind::NotFound));
}

#[test]
fn detach_lowers_the_count() {
    let mut m = ShmManager::new();
    m.create(ShmId(42), 4096, ShmFlags(0));
    m.attach(ShmId(42)).unwrap();
    m.attach(ShmId(42)).unwrap();
    assert_eq!(m.detach(ShmId(42)), Ok(()));
    assert_eq!(m.get(ShmId(42)).unwrap().attach_count, 1);
    assert_eq!(m.detach(ShmId(42)), Ok(()));
    assert_eq!(m.get(ShmId(42)).unwrap().attach_count, 0);
    assert!(!m.get(ShmId(42)).unwrap().marked_for_removal);
}

#[test]
fn detach_of_unattached_segment_keeps_zero() {
    let mut m = ShmManager::new();
    m.create(ShmId(42), 4096, ShmFlags(0));
    assert_eq!(m.detach(ShmId(42)), Ok(()));
    assert_eq!(m.get(ShmId(42)).unwrap().attach_count, 0);
}

#[test]
fn unattached_segment_is_destroyed_when_marked() {
    let mut m = ShmManager::new();
    m.create(ShmId(42), 4096, ShmFlags(0));
    assert_eq!(m.mark_for_removal(ShmId(42)), Ok(()));
    assert_eq!(m.get(ShmId(42)), None);
    assert_eq!(m.mark_for_removal(ShmId(42)), Err(ErrorKind::NotFound));
}

#[test]
fn attached_segment_outlives_the_mark() {
    let mut m = ShmManager::new();
    m.create(ShmId(42), 4096, ShmFlags(0));
    m.attach(ShmId(42)).unwrap();
    assert_eq!(m.mark_for_removal(ShmId(42)), Ok(()));
    let s = m.get(ShmId(42)).unwrap();
    assert!(s.marked_for_removal);
    assert_eq!(s.attach_count, 1);
    assert_eq!(m.attach(ShmId(42)), Ok(AttachmentId(1)));
    assert_eq!(m.get(ShmId(42)).unwrap().attach_count, 2);
}

#[test]
fn n_attaches_and_n_detaches_return_to_zero() {
    let mut m = ShmManager::new();
    m.create(ShmId(42), 4096, ShmFlags(0));
    let n = 5;
    for i in 0..n {
        assert_eq!(m.attach(ShmId(42)), Ok(AttachmentId(i)));
    }
    assert_eq!(m.get(ShmId(42)).unwrap().attach_count, n);
    for i in 0..n {
        assert_eq!(m.detach(ShmId(42)), Ok(()));
        assert_eq!(m.get(ShmId(42)).unwrap().attach_count, n - 1 - i);
    }
    assert_eq!(m.get(ShmId(42)).unwrap().attach_count, 0);
}

#[test]
fn marked_segment_goes_with_its_last_attachment() {
    let mut m = ShmManager::new();
    m.create(ShmId(42), 4096, ShmFlags(0));
    m.create(ShmId(43), 4096, ShmFlags(0));
    let n = 4;
    for _ in 0..2 {
        m.attach(ShmId(42)).unwrap();
    }
    m.mark_for_removal(ShmId(42)).unwrap();
    for _ in 2..n {
        m.attach(ShmId(42)).unwrap();
    }
    for i in 0..(n - 1) {
        assert_eq!(m.detach(ShmId(42)), Ok(()));
        let s = m.get(ShmId(42)).unwrap();
        assert_eq!(s.attach_count, n - 1 - i);
        assert!(s.marked_for_removal);
    }
    assert_eq!(m.detach(ShmId(42)), Ok(()));
    assert_eq!(m.get(ShmId(42)), None);
    assert_eq!(m.detach(ShmId(42)), Err(ErrorKind::NotFound));
    assert!(m.get(ShmId(43)).is_some());
}

#[test]
fn release_detaches_each_listed_attachment() {
    let mut m = ShmManager::new();
    m.create(ShmId(42), 4096, ShmFlags(0));
    m.create(ShmId(43), 4096, ShmFlags(0));
    let a = m.attach(ShmId(42)).unwrap();
    let b = m.attach(ShmId(42)).unwrap();
    let c = m.attach(ShmId(42)).unwrap();
    let d = m.attach(ShmId(43)).unwrap();
    m.mark_for_removal(ShmId(43)).unwrap();
    let held = vec![
        ShmTag { shm_id: ShmId(42), shm_attach: a },
        ShmTag { shm_id: ShmId(43), shm_attach: d },
        ShmTag { shm_id: ShmId(99), shm_attach: AttachmentId(17) },
        ShmTag { shm_id: ShmId(42), shm_attach: c },
    ];
    m.release(&held);
    assert_eq!(m.get(ShmId(42)).unwrap().attach_count, 1);
    assert_eq!(m.get(ShmId(43)), None);
    assert_eq!(m.get(ShmId(99)), None);
    m.release(&vec![]);
    assert_eq!(m.get(ShmId(42)).unwrap().attach_count, 1);
    m.release(&vec![ShmTag { shm_id: ShmId(42), shm_attach: b }]);
    assert_eq!(m.get(ShmId(42)).unwrap().attach_count, 0);
}

#[test]
fn try_attach_attaches_while_identities_are_left() {
    let mut m = ShmManager::new();
    m.create(ShmId(42), 4096, ShmFlags(0));
    assert_eq!(m.try_attach(ShmId(42)), Some(Ok(AttachmentId(0))));
    assert_eq!(m.try_attach(ShmId(7)), Some(Err(ErrorKind::NotFound)));
    assert_eq!(m.try_attach(ShmId(42)), Some(Ok(AttachmentId(1))));
    assert_eq!(m.get(ShmId(42)).unwrap().attach_count, 2);
}
