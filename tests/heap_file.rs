use storage_engine::buffer_manager::{BufferPoolManager, FetchStep};
use storage_engine::disk_manager::PageAllocator;
use storage_engine::heap_file::{HeapFile, InsertStep, TupleId};
use storage_engine::slotted_page::SlotId;
use storage_engine::{Page, PAGE_SIZE};

struct MemDisk {
    pages: Vec<Page>,
    alloc: PageAllocator,
}

impl MemDisk {
    fn write(&mut self, id: u64, page: &Page) {
        while self.pages.len() <= id as usize {
            self.pages.push([0u8; PAGE_SIZE]);
        }
        self.pages[id as usize] = *page;
        self.alloc.record_write(id);
    }
    fn allocate(&mut self) -> u64 {
        let id = self.alloc.next_page_id().unwrap();
        self.write(id, &[0u8; PAGE_SIZE]);
        id
    }
}

fn fetch(pool: &mut BufferPoolManager, disk: &mut MemDisk, page_id: u64) -> bool {
    match pool.fetch_page(page_id) {
        FetchStep::Hit(_) => true,
        FetchStep::NoFrame => false,
        FetchStep::Load { frame_id, write_back } => {
            if let Some(old) = write_back {
                let bytes = *pool.frame(frame_id).data();
                disk.write(old, &bytes);
            }
            pool.load_page(page_id, disk.pages[page_id as usize]);
            true
        }
    }
}

fn insert_tuple(hf: &mut HeapFile, pool: &mut BufferPoolManager, disk: &mut MemDisk, data: &[u8]) -> Option<TupleId> {
    let mut tried: usize = 0;
    loop {
        match hf.next_insert_step(tried) {
            InsertStep::TryPage(page_id) => {
                if !fetch(pool, disk, page_id) {
                    return None;
                }
                if let Some(t) = hf.insert_into_page(pool, page_id, data) {
                    return Some(t);
                }
                tried += 1;
            }
            InsertStep::NewPage => {
                let id = disk.allocate();
                if !fetch(pool, disk, id) {
                    return None;
                }
                return hf.insert_into_new_page(pool, id, data);
            }
        }
    }
}

fn read_tuple(hf: &HeapFile, pool: &mut BufferPoolManager, disk: &mut MemDisk, tid: TupleId) -> Option<Vec<u8>> {
    if !fetch(pool, disk, tid.page_id) {
        return None;
    }
    hf.read_from_page(pool, tid)
}

#[test]
fn heap_file_growth() {
    let mut disk = MemDisk { pages: Vec::new(), alloc: PageAllocator::new() };
    let mut pool = BufferPoolManager::new(8);
    let mut hf = HeapFile::new();
    let r1 = insert_tuple(&mut hf, &mut pool, &mut disk, b"alice").unwrap();
    let r2 = insert_tuple(&mut hf, &mut pool, &mut disk, b"bob").unwrap();
    let r3 = insert_tuple(&mut hf, &mut pool, &mut disk, b"carol").unwrap();
    assert_eq!(r1.page_id, 1);
    assert_eq!(r2.page_id, 1);
    assert_eq!(r3.page_id, 1);
    assert_eq!(r1.slot_id, SlotId(0));
    assert_eq!(r3.slot_id, SlotId(2));
    assert_eq!(read_tuple(&hf, &mut pool, &mut disk, r1).unwrap(), b"alice");
    assert_eq!(read_tuple(&hf, &mut pool, &mut disk, r2).unwrap(), b"bob");
    assert_eq!(read_tuple(&hf, &mut pool, &mut disk, r3).unwrap(), b"carol");
    let big = vec![7u8; 1000];
    let mut last = r3;
    while hf.pages().len() < 2 {
        last = insert_tuple(&mut hf, &mut pool, &mut disk, &big).unwrap();
    }
    assert_eq!(hf.pages().len(), 2);
    assert_ne!(last.page_id, 1);
    assert_eq!(last.slot_id, SlotId(0));
    let next = insert_tuple(&mut hf, &mut pool, &mut disk, &big).unwrap();
    assert_eq!(next.page_id, last.page_id);
    assert_eq!(read_tuple(&hf, &mut pool, &mut disk, next).unwrap(), big);
    assert_eq!(read_tuple(&hf, &mut pool, &mut disk, r2).unwrap(), b"bob");
}

#[test]
fn heap_file_read_after_eviction() {
    let mut disk = MemDisk { pages: Vec::new(), alloc: PageAllocator::new() };
    let mut pool = BufferPoolManager::new(1);
    let mut hf = HeapFile::new();
    let a = insert_tuple(&mut hf, &mut pool, &mut disk, &vec![1u8; 3000]).unwrap();
    let b = insert_tuple(&mut hf, &mut pool, &mut disk, &vec![2u8; 3000]).unwrap();
    assert_ne!(a.page_id, b.page_id);
    assert_eq!(read_tuple(&hf, &mut pool, &mut disk, a).unwrap(), vec![1u8; 3000]);
    assert_eq!(read_tuple(&hf, &mut pool, &mut disk, b).unwrap(), vec![2u8; 3000]);
}

#[test]
fn heap_file_missing_tuple() {
    let mut disk = MemDisk { pages: Vec::new(), alloc: PageAllocator::new() };
    let mut pool = BufferPoolManager::new(2);
    let mut hf = HeapFile::new();
    let a = insert_tuple(&mut hf, &mut pool, &mut disk, b"x").unwrap();
    let missing = TupleId { page_id: a.page_id, slot_id: SlotId(4) };
    assert_eq!(read_tuple(&hf, &mut pool, &mut disk, missing), None);
}

#[test]
fn heap_file_oversized_tuple() {
    let mut disk = MemDisk { pages: Vec::new(), alloc: PageAllocator::new() };
    let mut pool = BufferPoolManager::new(2);
    let mut hf = HeapFile::new();
    assert_eq!(insert_tuple(&mut hf, &mut pool, &mut disk, &vec![0u8; 4087]), None);
    assert_eq!(hf.pages().len(), 0);
}

#[test]
fn first_fit_steps() {
    let mut disk = MemDisk { pages: Vec::new(), alloc: PageAllocator::new() };
    let mut pool = BufferPoolManager::new(2);
    let mut hf = HeapFile::new();
    assert!(matches!(hf.next_insert_step(0), InsertStep::NewPage));
    let t = insert_tuple(&mut hf, &mut pool, &mut disk, b"x").unwrap();
    assert!(matches!(hf.next_insert_step(0), InsertStep::TryPage(p) if p == t.page_id));
    assert!(matches!(hf.next_insert_step(1), InsertStep::NewPage));
}
