use storage_engine::buffer_manager::{BufferPoolManager, ClockReplacer, FetchStep};
use storage_engine::{Page, PAGE_SIZE};

#[test]
fn clock_replacer_test() {
    let mut clock_replacer = ClockReplacer::new(3);
    clock_replacer.unpin(0);
    clock_replacer.unpin(1);
    clock_replacer.unpin(2);
    assert_eq!(clock_replacer.victim(), Some(0));
    clock_replacer.pin(0);
    assert_eq!(clock_replacer.victim(), Some(1));
    clock_replacer.pin(1);
    assert_eq!(clock_replacer.victim(), Some(2));
    clock_replacer.pin(2);
    assert_eq!(clock_replacer.victim(), None);
}

#[test]
fn victim_consumes_candidate() {
    let mut r = ClockReplacer::new(4);
    r.unpin(2);
    assert_eq!(r.peek_victim(), Some(2));
    assert_eq!(r.victim(), Some(2));
    assert_eq!(r.victim(), None);
    r.unpin(1);
    r.unpin(3);
    // the hand stands after frame 2
    assert_eq!(r.victim(), Some(3));
    assert_eq!(r.victim(), Some(1));
}

#[test]
fn empty_replacer_has_no_victim() {
    let mut r = ClockReplacer::new(0);
    assert_eq!(r.victim(), None);
}

/// Serves a fetch the way a disk-backed caller does, over pages in memory.
fn fetch(pool: &mut BufferPoolManager, disk: &mut Vec<Page>, page_id: u64) -> Option<usize> {
    match pool.fetch_page(page_id) {
        FetchStep::Hit(f) => Some(f),
        FetchStep::NoFrame => None,
        FetchStep::Load { frame_id, write_back } => {
            if let Some(old) = write_back {
                disk[old as usize] = *pool.frame(frame_id).data();
            }
            Some(pool.load_page(page_id, disk[page_id as usize]))
        }
    }
}

#[test]
fn eviction_writes_back_dirty_page() {
    let mut disk: Vec<Page> = vec![[0xAAu8; PAGE_SIZE], [0xBBu8; PAGE_SIZE], [0u8; PAGE_SIZE]];
    let mut pool = BufferPoolManager::new(2);
    let f0 = fetch(&mut pool, &mut disk, 0).unwrap();
    assert_eq!(f0, 0);
    let mut data = *pool.frame(f0).data();
    data[0] = 0x11;
    pool.set_frame_data(f0, data);
    assert!(pool.unpin_page(0, true));
    let f1 = fetch(&mut pool, &mut disk, 1).unwrap();
    assert_ne!(f0, f1);
    assert!(pool.unpin_page(1, false));
    // a third page needs a victim: the clock hand meets the frame of
    // page 0 first, which is dirty and goes back to disk
    match pool.fetch_page(2) {
        FetchStep::Load { frame_id, write_back } => {
            assert_eq!(frame_id, f0);
            assert_eq!(write_back, Some(0));
        }
        _ => panic!("expected a load"),
    }
    let f2 = fetch(&mut pool, &mut disk, 2).unwrap();
    assert_eq!(f2, f0);
    assert_eq!(disk[0][0], 0x11);
    assert_eq!(disk[0][1], 0xAA);
    assert_eq!(disk[1], [0xBBu8; PAGE_SIZE]);
    assert_eq!(pool.frame_of(0), None);
    assert_eq!(pool.frame_of(1), Some(f1));
    assert_eq!(pool.frame_of(2), Some(f0));
}

#[test]
fn refetch_is_a_hit_with_same_bytes() {
    let mut disk: Vec<Page> = vec![[5u8; PAGE_SIZE]];
    let mut pool = BufferPoolManager::new(3);
    let f = fetch(&mut pool, &mut disk, 0).unwrap();
    assert!(pool.unpin_page(0, false));
    match pool.fetch_page(0) {
        FetchStep::Hit(g) => {
            assert_eq!(g, f);
            assert_eq!(pool.frame(g).data(), &[5u8; PAGE_SIZE]);
            assert_eq!(pool.frame(g).pin_count(), 1);
        }
        _ => panic!("expected a hit"),
    }
}

#[test]
fn fetch_with_every_frame_pinned_fails() {
    let mut disk: Vec<Page> = vec![[0u8; PAGE_SIZE]; 3];
    let mut pool = BufferPoolManager::new(2);
    fetch(&mut pool, &mut disk, 0).unwrap();
    fetch(&mut pool, &mut disk, 1).unwrap();
    assert!(matches!(pool.fetch_page(2), FetchStep::NoFrame));
    assert_eq!(pool.plan_load(), None);
    assert_eq!(pool.new_page(7), None);
    // a cached page is still served
    assert!(matches!(pool.fetch_page(1), FetchStep::Hit(_)));
}

#[test]
fn unpin_errors() {
    let mut disk: Vec<Page> = vec![[0u8; PAGE_SIZE]];
    let mut pool = BufferPoolManager::new(1);
    assert!(!pool.unpin_page(0, false));
    fetch(&mut pool, &mut disk, 0).unwrap();
    assert!(pool.unpin_page(0, false));
    assert!(!pool.unpin_page(0, false));
}

#[test]
fn dirty_flag_is_sticky() {
    let mut disk: Vec<Page> = vec![[0u8; PAGE_SIZE]];
    let mut pool = BufferPoolManager::new(1);
    let f = fetch(&mut pool, &mut disk, 0).unwrap();
    fetch(&mut pool, &mut disk, 0).unwrap();
    assert_eq!(pool.frame(f).pin_count(), 2);
    assert!(pool.unpin_page(0, true));
    assert!(pool.unpin_page(0, false));
    assert!(pool.frame(f).is_dirty());
}

#[test]
fn new_page_zeroes_and_pins() {
    let mut pool = BufferPoolManager::new(2);
    let f = pool.new_page(1).unwrap();
    assert_eq!(pool.frame(f).page_id(), 1);
    assert_eq!(pool.frame(f).pin_count(), 1);
    assert!(!pool.frame(f).is_dirty());
    assert_eq!(pool.frame(f).data(), &[0u8; PAGE_SIZE]);
    // frames are handed out from frame 0 up
    assert_eq!(f, 0);
}

#[test]
fn frame_copy_keeps_fields() {
    let mut pool = BufferPoolManager::new(1);
    let f = pool.new_page(3).unwrap();
    let c = pool.frame(f).copy();
    assert_eq!(c.page_id(), 3);
    assert_eq!(c.pin_count(), 1);
    assert_eq!(c.data, [0u8; PAGE_SIZE]);
    assert!(!c.is_dirty);
}

#[test]
fn dirty_pages_lists_what_to_flush() {
    let mut disk: Vec<Page> = vec![[0u8; PAGE_SIZE]; 3];
    let mut pool = BufferPoolManager::new(3);
    let f0 = fetch(&mut pool, &mut disk, 0).unwrap();
    let f1 = fetch(&mut pool, &mut disk, 1).unwrap();
    fetch(&mut pool, &mut disk, 2).unwrap();
    assert!(pool.unpin_page(0, true));
    assert!(pool.unpin_page(1, false));
    assert!(pool.unpin_page(2, true));
    let dirty = pool.dirty_pages();
    assert_eq!(dirty, vec![(f0, 0), (2, 2)]);
    pool.mark_clean(f0);
    assert!(!pool.frame(f0).is_dirty());
    assert_eq!(pool.dirty_pages(), vec![(2, 2)]);
    assert!(!pool.frame(f1).is_dirty());
}
