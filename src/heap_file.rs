use vstd::prelude::*;

use crate::buffer_manager::BufferPoolManager;
use crate::slotted_page::{is_live, page_wf, payload, tuples, free_end_of, free_start_of, SlotId, SlottedPage};
use crate::Page;

verus! {

pub type PageId = u64;

/// Names one tuple of a heap file: its page and its slot there.
#[derive(Clone, Copy, Debug, PartialEq, Eq, Structural)]
pub struct TupleId {
    pub page_id: PageId,
    pub slot_id: SlotId,
}

/// An unordered collection of tuples spread over an ordered list of
/// slotted pages. The pages are reached through a buffer pool: each step
/// here works on a page that the caller has fetched and pinned, and
/// releases that pin.
pub struct HeapFile {
    pages: Vec<PageId>,
}

/// A cached and pinned page of the pool.
pub open spec fn pinned(pool: &BufferPoolManager, page_id: u64) -> bool {
    &&& pool.wf()
    &&& pool.table().contains_key(page_id)
    &&& pool.frame_view(pool.table()[page_id] as int).pins() > 0
}

/// The bytes the pool holds for a cached page.
pub open spec fn page_bytes(pool: &BufferPoolManager, page_id: u64) -> Seq<u8> {
    pool.frame_view(pool.table()[page_id] as int).bytes()
}

/// The pool after a step on cached page `page_id` that releases one pin on
/// its frame, marking it dirty if `dirty` is set: the page table and every
/// other frame are unchanged.
pub open spec fn pool_step(old_pool: &BufferPoolManager, new_pool: &BufferPoolManager, page_id: u64, dirty: bool) -> bool {
    let f = old_pool.table()[page_id] as int;
    &&& new_pool.wf()
    &&& new_pool.table() == old_pool.table()
    &&& new_pool.pool_size() == old_pool.pool_size()
    &&& new_pool.frame_view(f).pid() == page_id
    &&& new_pool.frame_view(f).pins() == old_pool.frame_view(f).pins() - 1
    &&& new_pool.frame_view(f).dirty() == (old_pool.frame_view(f).dirty() || dirty)
    &&& forall|i: int| 0 <= i < old_pool.pool_size() && i != f ==> new_pool.frame_view(i) == old_pool.frame_view(i)
}

/// A tuple read from the slot its insert returned, on the page bytes the
/// insert left, is the tuple inserted.
pub proof fn lemma_read_after_insert(b0: Seq<u8>, b1: Seq<u8>, s: int, x: Seq<u8>)
    requires
        page_wf(b1),
        tuples(b1) == tuples(b0).insert(s, x),
    ensures
        page_wf(b1),
        is_live(b1, s),
        payload(b1, s) == x,
{
    assert(tuples(b1).contains_key(s));
    assert(tuples(b1)[s] == x);
    assert(tuples(b1)[s] == payload(b1, s));
}

/// What an insert asks of the caller next.
pub enum InsertStep {
    /// Fetch and pin this page of the file and try it with
    /// `insert_into_page`.
    TryPage(PageId),
    /// Every page of the file has been tried: allocate a page, fetch and
    /// pin it, and hand it to `insert_into_new_page`.
    NewPage,
}

impl HeapFile {
    /// First fit: after the first `tried` pages of the file failed, the
    /// next page in order, or a new page once all have been tried.
    pub fn next_insert_step(&self, tried: usize) -> (r: InsertStep)
        ensures
            tried < self.page_list().len() ==> r == InsertStep::TryPage(self.page_list()[tried as int]),
            tried >= self.page_list().len() ==> r == InsertStep::NewPage,
    {
        if tried < self.pages.len() {
            InsertStep::TryPage(self.pages[tried])
        } else {
            InsertStep::NewPage
        }
    }

    /// The file's pages, in the order they were added.
    pub closed spec fn page_list(&self) -> Seq<PageId> {
        self.pages@
    }

    /// A heap file with no page yet.
    pub fn new() -> (r: Self)
        ensures
            r.page_list() == Seq::<PageId>::empty(),
    {
        HeapFile { pages: Vec::new() }
    }

    pub fn pages(&self) -> (r: &Vec<PageId>)
        ensures
            r@ == self.page_list(),
    {
        &self.pages
    }

    /// Tries to store a tuple in a page of this file that the caller has
    /// pinned, then unpins it, dirty iff the tuple went in. Fails, leaving
    /// the bytes alone, when the page is not a well-formed slotted page or
    /// has no room.
    pub fn insert_into_page(&self, pool: &mut BufferPoolManager, page_id: PageId, data: &[u8]) -> (r: Option<TupleId>)
        requires
            pinned(old(pool), page_id),
        ensures
            pool_step(old(pool), final(pool), page_id, r is Some),
            ({
                let b = page_bytes(old(pool), page_id);
                &&& (r is Some) <==> (page_wf(b) && free_start_of(b) + data@.len() + 4 <= free_end_of(b))
                &&& r is None ==> page_bytes(final(pool), page_id) == b
                &&& r matches Some(t) ==> t.page_id == page_id && page_wf(page_bytes(final(pool), page_id)) && tuples(
                    page_bytes(final(pool), page_id),
                ) == tuples(b).insert(t.slot_id.0 as int, data@)
            }),
    {
        let f = pool.frame_of(page_id).unwrap();
        let buf: Page = *pool.frame(f).data();
        let mut result: Option<TupleId> = None;
        if SlottedPage::is_well_formed(&buf) {
            let mut sp = SlottedPage::from_buffer(buf);
            match sp.insert(data) {
                Some(slot_id) => {
                    pool.set_frame_data(f, sp.into_buffer());
                    result = Some(TupleId { page_id, slot_id });
                },
                None => {},
            }
        }
        pool.unpin_page(page_id, result.is_some());
        result
    }

    /// Lays a fresh slotted page over a page that the caller allocated and
    /// pinned, stores the tuple in its slot 0, unpins it dirty and adds it
    /// to the file. A tuple longer than 4086 bytes cannot fit in any page:
    /// then the page is unpinned untouched and not added.
    pub fn insert_into_new_page(&mut self, pool: &mut BufferPoolManager, page_id: PageId, data: &[u8]) -> (r: Option<
        TupleId,
    >)
        requires
            pinned(old(pool), page_id),
        ensures
            pool_step(old(pool), final(pool), page_id, r is Some),
            (r is Some) <==> data@.len() <= 4086,
            r is None ==> page_bytes(final(pool), page_id) == page_bytes(old(pool), page_id) && final(self).page_list()
                == old(self).page_list(),
            r matches Some(t) ==> {
                &&& t == TupleId { page_id, slot_id: SlotId(0) }
                &&& final(self).page_list() == old(self).page_list().push(page_id)
                &&& page_wf(page_bytes(final(pool), page_id))
                &&& tuples(page_bytes(final(pool), page_id)) == Map::<int, Seq<u8>>::empty().insert(0, data@)
            },
    {
        let f = pool.frame_of(page_id).unwrap();
        let buf: Page = *pool.frame(f).data();
        let mut sp = SlottedPage::init(buf);
        match sp.insert(data) {
            Some(slot_id) => {
                pool.set_frame_data(f, sp.into_buffer());
                pool.unpin_page(page_id, true);
                self.pages.push(page_id);
                Some(TupleId { page_id, slot_id })
            },
            None => {
                pool.unpin_page(page_id, false);
                None
            },
        }
    }

    /// Copies out a tuple of a page that the caller has pinned, then unpins
    /// it clean. `None` when the slot is out of range or deleted, or the
    /// page is not a well-formed slotted page.
    pub fn read_from_page(&self, pool: &mut BufferPoolManager, tid: TupleId) -> (r: Option<Vec<u8>>)
        requires
            pinned(old(pool), tid.page_id),
        ensures
            pool_step(old(pool), final(pool), tid.page_id, false),
            page_bytes(final(pool), tid.page_id) == page_bytes(old(pool), tid.page_id),
            ({
                let b = page_bytes(old(pool), tid.page_id);
                &&& (r is Some) <==> (page_wf(b) && is_live(b, tid.slot_id.0 as int))
                &&& r matches Some(v) ==> v@ == payload(b, tid.slot_id.0 as int)
            }),
    {
        let f = pool.frame_of(tid.page_id).unwrap();
        let buf: Page = *pool.frame(f).data();
        let mut result: Option<Vec<u8>> = None;
        if SlottedPage::is_well_formed(&buf) {
            let sp = SlottedPage::from_buffer(buf);
            match sp.read(tid.slot_id) {
                Some(bytes) => {
                    result = Some(vstd::slice::slice_to_vec(bytes));
                },
                None => {},
            }
        }
        pool.unpin_page(tid.page_id, false);
        result
    }
}

} // verus!
