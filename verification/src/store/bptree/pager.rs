use vstd::prelude::*;

verus! {

pub type PageId = u64;

/// Bytes per page.
pub const PAGE_SIZE: usize = 4096;

/// The page count that the pager reports for a data file of `len` bytes.
/// Division binds tighter than addition here, so the count is
/// `len + PAGE_SIZE - (1 / PAGE_SIZE)`, that is `len + PAGE_SIZE`.
pub fn len_pages_for(len: u64) -> (n: u64)
    requires
        len + PAGE_SIZE <= u64::MAX,
    ensures
        n == len + PAGE_SIZE,
{
    len + PAGE_SIZE as u64 - 1 / PAGE_SIZE as u64
}

/// The byte offset of a page in the data file.
pub fn page_offset(page_id: PageId) -> (off: u64)
    requires
        page_id * PAGE_SIZE <= u64::MAX,
    ensures
        off == page_id * PAGE_SIZE,
{
    page_id * PAGE_SIZE as u64
}

} // verus!
