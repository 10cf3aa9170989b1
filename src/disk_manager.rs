use vstd::prelude::*;

use crate::PAGE_SIZE;

verus! {

/// Page-id bookkeeping of a backing file made of 4096-byte pages: where a
/// page lies in the file and which id the next allocation takes.
pub struct PageAllocator {
    num_pages: u64,
}

impl PageAllocator {
    /// One more than the highest page id written so far (0 at first).
    pub closed spec fn pages(&self) -> nat {
        self.num_pages as nat
    }

    /// Bookkeeping of a file just opened: no page counted yet.
    pub fn new() -> (r: Self)
        ensures
            r.pages() == 0,
    {
        PageAllocator { num_pages: 0 }
    }

    pub fn num_pages(&self) -> (r: u64)
        ensures
            r == self.pages(),
    {
        self.num_pages
    }

    /// Byte offset of a page in the file; `None` where it does not fit in
    /// a u64.
    pub fn page_offset(page_id: u64) -> (r: Option<u64>)
        ensures
            page_id * 4096 <= u64::MAX ==> r == Some((page_id * 4096) as u64),
            page_id * 4096 > u64::MAX ==> r is None,
    {
        page_id.checked_mul(PAGE_SIZE as u64)
    }

    /// Counts a write of `page_id`: the count becomes at least one past it.
    pub fn record_write(&mut self, page_id: u64)
        requires
            page_id < u64::MAX,
        ensures
            final(self).pages() == if old(self).pages() > page_id + 1 {
                old(self).pages()
            } else {
                (page_id + 1) as nat
            },
    {
        if page_id + 1 > self.num_pages {
            self.num_pages = page_id + 1;
        }
    }

    /// The id the next allocation takes: one past the count, so a fresh
    /// file starts at page 1. `None` once ids run out.
    pub fn next_page_id(&self) -> (r: Option<u64>)
        ensures
            self.pages() + 1 < u64::MAX ==> r == Some((self.pages() + 1) as u64),
            self.pages() + 1 >= u64::MAX ==> r is None,
    {
        if self.num_pages < u64::MAX - 1 {
            Some(self.num_pages + 1)
        } else {
            None
        }
    }
}

} // verus!
