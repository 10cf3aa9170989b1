use vstd::prelude::*;

pub mod buffer_manager;
pub mod disk_manager;
pub mod heap_file;
pub mod slotted_page;

verus! {

/// Size in bytes of one page: the unit of disk I/O and of caching.
pub const PAGE_SIZE: usize = 4096;

/// One page of bytes.
pub type Page = [u8; PAGE_SIZE];

} // verus!
