use vstd::prelude::*;

verus! {

/// log2 of the size of one page, in bytes.
pub const PAGE_SIZE_BASE: u64 = 13;

/// Size of one page, in bytes.
pub const PAGE_SIZE: usize = 8192;

/// Number of page slots held by the buffer.
pub const BUF_PAGE_CAPACITY: usize = 1024;

} // verus!
