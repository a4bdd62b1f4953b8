use memmap2::MmapMut;
use redb::allocator::PageAllocator;
use redb::{Error, PageNumber, TransactionalMemory};

const MIB: usize = 1 << 20;

fn fresh(len: usize) -> TransactionalMemory {
    let mmap = MmapMut::map_anon(len).unwrap();
    match TransactionalMemory::new(mmap, Some(4096)) {
        Ok(tm) => tm,
        Err(e) => panic!("open failed: {:?}", e),
    }
}

fn reopen(tm: TransactionalMemory) -> TransactionalMemory {
    let mmap = tm.close().unwrap().0;
    match TransactionalMemory::new(mmap, Some(4096)) {
        Ok(tm) => tm,
        Err(e) => panic!("reopen failed: {:?}", e),
    }
}

fn be_u128(b: &[u8]) -> u128 {
    let mut v: u128 = 0;
    for x in b {
        v = v * 256 + *x as u128;
    }
    v
}

#[test]
fn fresh_init_layout() {
    let tm = fresh(MIB);
    assert_eq!(tm.get_primary_root_page(), None);
    assert_eq!(tm.get_last_committed_transaction_id(), 0);
    let mmap = tm.close().unwrap().0;
    assert_eq!(&mmap[0..4], &[0x72, 0x65, 0x64, 0x62]);
    assert_eq!(mmap[4], 1);
    assert_eq!(mmap[5], 12);
    assert_eq!(be_u128(&mmap[6..14]), MIB as u128);
    assert_eq!(mmap[14], 0);
    for slot in [128usize, 256] {
        assert_eq!(&mmap[slot..slot + 8], &[0u8; 8]);
        assert_eq!(be_u128(&mmap[slot + 12..slot + 28]), 0);
        assert_eq!(mmap[slot + 44], 0);
        assert_eq!(be_u128(&mmap[slot + 36..slot + 44]), 32);
    }
    assert_eq!(be_u128(&mmap[128 + 28..128 + 36]), (MIB - 64) as u128);
    assert_eq!(be_u128(&mmap[256 + 28..256 + 36]), (MIB - 32) as u128);
}

#[test]
fn fresh_init_default_page_size() {
    let mmap = MmapMut::map_anon(MIB).unwrap();
    let tm = match TransactionalMemory::new(mmap, None) {
        Ok(tm) => tm,
        Err(e) => panic!("open failed: {:?}", e),
    };
    let mmap = tm.close().unwrap().0;
    assert_eq!(mmap[5], 12);
}

#[test]
fn usable_pages_of_one_mebibyte() {
    assert_eq!(TransactionalMemory::calculate_usable_pages(MIB, 4096), Some(255));
    assert_eq!(TransactionalMemory::calculate_usable_pages(16384, 4096), Some(3));
    assert_eq!(TransactionalMemory::calculate_usable_pages(100, 4096), Some(0));
    let tm = fresh(MIB);
    // Page 0 holds the metapage
    assert_eq!(tm.count_free_pages(), 254);
}

#[test]
fn allocate_commit_reopen() {
    let mut tm = fresh(MIB);
    let p = tm.allocate(64).unwrap();
    p.memory_mut(&mut tm)[0] = 0xAB;
    let pn = p.get_page_number();
    assert_eq!(pn, PageNumber::new(1, 0));
    p.release(&mut tm);
    tm.set_secondary_root_page(pn, 10);
    tm.commit(1).unwrap();
    let tm = reopen(tm);
    assert_eq!(tm.get_primary_root_page(), Some((pn, 10)));
    assert_eq!(tm.get_last_committed_transaction_id(), 1);
    let page = tm.get_page(pn);
    assert_eq!(page.memory()[0], 0xAB);
    assert_eq!(page.memory().len(), 4096);
    assert_eq!(page.get_page_number(), pn);
}

#[test]
fn allocate_zeroes_page() {
    let mut tm = fresh(MIB);
    let p = tm.allocate(4096).unwrap();
    let pn = p.get_page_number();
    for b in p.memory_mut(&mut tm).iter_mut() {
        *b = 0x55;
    }
    p.release(&mut tm);
    assert_eq!(tm.free_if_uncommitted(pn).unwrap(), true);
    let p = tm.allocate(4096).unwrap();
    assert_eq!(p.get_page_number(), pn);
    assert!(p.memory_mut(&mut tm).iter().all(|b| *b == 0));
    p.release(&mut tm);
}

#[test]
fn allocate_rollback_restores_free_count() {
    let mut tm = fresh(MIB);
    let before = tm.count_free_pages();
    for _ in 0..3 {
        let p = tm.allocate(100).unwrap();
        p.release(&mut tm);
    }
    assert_eq!(tm.count_free_pages(), before - 3);
    tm.rollback_uncommited_writes().unwrap();
    assert_eq!(tm.count_free_pages(), before);
}

#[test]
fn rollback_restores_freed_pages() {
    let mut tm = fresh(MIB);
    let p = tm.allocate(10).unwrap();
    let pn = p.get_page_number();
    p.release(&mut tm);
    tm.commit(1).unwrap();
    let before = tm.count_free_pages();
    tm.free(pn).unwrap();
    assert_eq!(tm.count_free_pages(), before + 1);
    tm.rollback_uncommited_writes().unwrap();
    assert_eq!(tm.count_free_pages(), before);
}

#[test]
fn non_durable_then_durable() {
    let mut tm = fresh(MIB);
    let p = tm.allocate(64).unwrap();
    let first = p.get_page_number();
    p.release(&mut tm);
    tm.set_secondary_root_page(first, 3);
    tm.non_durable_commit(5).unwrap();
    assert_eq!(tm.get_primary_root_page(), Some((first, 3)));
    assert_eq!(tm.get_last_committed_transaction_id(), 5);
    let q = tm.allocate(64).unwrap();
    let second = q.get_page_number();
    assert_ne!(first, second);
    q.release(&mut tm);
    tm.set_secondary_root_page(second, 7);
    tm.commit(6).unwrap();
    assert_eq!(tm.get_primary_root_page(), Some((second, 7)));
    let tm = reopen(tm);
    assert_eq!(tm.get_primary_root_page(), Some((second, 7)));
    assert_eq!(tm.get_last_committed_transaction_id(), 6);
}

#[test]
fn non_durable_commit_made_durable_on_close() {
    let mut tm = fresh(MIB);
    let p = tm.allocate(64).unwrap();
    let pn = p.get_page_number();
    p.release(&mut tm);
    tm.set_secondary_root_page(pn, 1);
    tm.non_durable_commit(9).unwrap();
    let tm = reopen(tm);
    assert_eq!(tm.get_primary_root_page(), Some((pn, 1)));
    assert_eq!(tm.get_last_committed_transaction_id(), 9);
}

#[test]
fn free_across_commits() {
    let mut tm = fresh(MIB);
    let p = tm.allocate(64).unwrap();
    let pn = p.get_page_number();
    p.release(&mut tm);
    tm.commit(1).unwrap();
    assert!(!tm.uncommitted(pn));
    tm.free(pn).unwrap();
    tm.commit(2).unwrap();
    let q = tm.allocate(64).unwrap();
    assert_eq!(q.get_page_number(), pn);
    q.release(&mut tm);
}

#[test]
fn free_if_uncommitted_only_frees_new_pages() {
    let mut tm = fresh(MIB);
    let p = tm.allocate(64).unwrap();
    let old = p.get_page_number();
    p.release(&mut tm);
    tm.commit(1).unwrap();
    let q = tm.allocate(64).unwrap();
    let new = q.get_page_number();
    q.release(&mut tm);
    assert!(tm.uncommitted(new));
    assert!(!tm.uncommitted(old));
    let free = tm.count_free_pages();
    assert_eq!(tm.free_if_uncommitted(old).unwrap(), false);
    assert_eq!(tm.count_free_pages(), free);
    assert_eq!(tm.free_if_uncommitted(new).unwrap(), true);
    assert!(!tm.uncommitted(new));
    assert_eq!(tm.count_free_pages(), free + 1);
}

#[test]
fn primary_bit_toggles() {
    let tm = fresh(MIB);
    let mmap = tm.close().unwrap().0;
    assert_eq!(mmap[14], 0);
    let mut tm = TransactionalMemory::new(mmap, Some(4096)).ok().unwrap();
    tm.commit(1).unwrap();
    let mmap = tm.close().unwrap().0;
    assert_eq!(mmap[14], 1);
    let mut tm = TransactionalMemory::new(mmap, Some(4096)).ok().unwrap();
    tm.commit(2).unwrap();
    let mmap = tm.close().unwrap().0;
    assert_eq!(mmap[14], 0);
}

#[test]
fn reopening_keeps_metapage() {
    let tm = fresh(MIB);
    let mmap = tm.close().unwrap().0;
    let first = mmap[0..384].to_vec();
    let tm = TransactionalMemory::new(mmap, Some(4096)).ok().unwrap();
    let mmap = tm.close().unwrap().0;
    assert_eq!(mmap[0..384].to_vec(), first);
    let tm = TransactionalMemory::new(mmap, None).ok().unwrap();
    let mmap = tm.close().unwrap().0;
    assert_eq!(mmap[0..384].to_vec(), first);
}

#[test]
fn too_small_mapping_is_rejected() {
    let mmap = MmapMut::map_anon(100).unwrap();
    assert!(matches!(TransactionalMemory::new(mmap, Some(4096)), Err(Error::InvalidSize)));
}

#[test]
fn page_size_mismatch_is_rejected() {
    let tm = fresh(MIB);
    let mmap = tm.close().unwrap().0;
    assert!(matches!(TransactionalMemory::new(mmap, Some(8192)), Err(Error::PageSizeMismatch)));
}

#[test]
fn dirty_slot_needs_repair() {
    let tm = fresh(MIB);
    let mut mmap = tm.close().unwrap().0;
    mmap[128 + 44] = 1;
    assert!(matches!(TransactionalMemory::new(mmap, Some(4096)), Err(Error::RepairRequired)));
}

#[test]
fn corrupted_header_is_rejected() {
    let tm = fresh(MIB);
    let mut mmap = tm.close().unwrap().0;
    mmap[5] = 200;
    assert!(matches!(TransactionalMemory::new(mmap, None), Err(Error::Corrupted)));
    let tm = fresh(MIB);
    let mut mmap = tm.close().unwrap().0;
    mmap[14] = 2;
    assert!(matches!(TransactionalMemory::new(mmap, None), Err(Error::Corrupted)));
    let tm = fresh(MIB);
    let mut mmap = tm.close().unwrap().0;
    mmap[13] ^= 1;
    assert!(matches!(TransactionalMemory::new(mmap, None), Err(Error::Corrupted)));
}

#[test]
fn allocation_runs_out_of_space() {
    // Three base pages: the metapage and two user pages
    let mut tm = fresh(16384);
    assert_eq!(tm.count_free_pages(), 2);
    let a = tm.allocate(1).unwrap();
    a.release(&mut tm);
    let b = tm.allocate(1).unwrap();
    b.release(&mut tm);
    assert!(matches!(tm.allocate(1), Err(Error::OutOfSpace)));
    assert_eq!(tm.count_free_pages(), 0);
}

#[test]
fn mutable_handle_from_get_page_mut() {
    let mut tm = fresh(MIB);
    let p = tm.allocate(64).unwrap();
    let pn = p.get_page_number();
    p.release(&mut tm);
    let h = tm.get_page_mut(pn);
    h.memory_mut(&mut tm)[5] = 9;
    h.release(&mut tm);
    assert_eq!(tm.get_page(pn).memory()[5], 9);
}

#[test]
fn bitmap_allocator_operations() {
    let mut buf = vec![0xFFu8; PageAllocator::required_space(20)];
    assert_eq!(buf.len(), 3);
    let a = PageAllocator::init_new(&mut buf, 20);
    assert_eq!(buf, vec![0, 0, 0]);
    assert_eq!(a.count_free_pages(&buf), 20);
    a.record_alloc(&mut buf, 0);
    a.record_alloc(&mut buf, 9);
    assert_eq!(buf, vec![0b0000_0001, 0b0000_0010, 0]);
    assert_eq!(a.alloc_page(&mut buf), Some(1));
    assert!(a.is_allocated(&buf, 1));
    a.free(&mut buf, 0);
    assert_eq!(a.alloc_page(&mut buf), Some(0));
    assert_eq!(a.count_free_pages(&buf), 17);
}

#[test]
fn handle_reads_what_it_wrote() {
    let mut tm = fresh(MIB);
    let p = tm.allocate(64).unwrap();
    p.memory_mut(&mut tm)[4095] = 0x42;
    assert_eq!(p.memory(&tm)[4095], 0x42);
    assert_eq!(p.memory(&tm).len(), 4096);
    p.release(&mut tm);
}

#[test]
fn out_of_range_dirty_flag_is_corruption() {
    let tm = fresh(MIB);
    let mut mmap = tm.close().unwrap().0;
    mmap[256 + 44] = 2;
    assert!(matches!(TransactionalMemory::new(mmap, Some(4096)), Err(Error::Corrupted)));
}

#[test]
fn allocation_marks_secondary_dirty_until_commit() {
    let mut tm = fresh(MIB);
    let p = tm.allocate(64).unwrap();
    p.release(&mut tm);
    tm.commit(1).unwrap();
    let mmap = tm.close().unwrap().0;
    // After commit and close both slots are clean, and the bit points at slot 1
    assert_eq!(mmap[14], 1);
    assert_eq!(mmap[128 + 44], 0);
    assert_eq!(mmap[256 + 44], 0);
}
