use storage_engine::disk_manager::PageAllocator;

#[test]
fn first_allocation_on_fresh_file_is_page_one() {
    let a = PageAllocator::new();
    assert_eq!(a.num_pages(), 0);
    assert_eq!(a.next_page_id(), Some(1));
}

#[test]
fn writes_raise_the_page_count() {
    let mut a = PageAllocator::new();
    a.record_write(1);
    assert_eq!(a.num_pages(), 2);
    assert_eq!(a.next_page_id(), Some(3));
    a.record_write(0);
    assert_eq!(a.num_pages(), 2);
    a.record_write(9);
    assert_eq!(a.num_pages(), 10);
}

#[test]
fn page_offsets() {
    assert_eq!(PageAllocator::page_offset(0), Some(0));
    assert_eq!(PageAllocator::page_offset(3), Some(12288));
    assert_eq!(PageAllocator::page_offset(u64::MAX), None);
}
