//! A small page-oriented storage engine: page-buffer replacement over
//! array-backed linked lists, a buffer manager that maps buffer slots to file
//! pages, a file registry, and record-page bookkeeping.

pub mod constants;
pub mod list;
pub mod bimap_spec;
pub mod bm;
pub mod fm;
pub mod file_ids;
pub mod page;
pub mod rm;
