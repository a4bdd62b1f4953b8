//! Transactional page manager of a single-file key/value store.
//!
//! The store lives in one memory-mapped file split into a metapage, an area
//! of fixed-size user pages and two allocator regions. Two transaction slots
//! in the metapage, selected by a primary bit, make batches of page
//! allocations and frees atomically durable.
use vstd::prelude::*;

pub mod allocator;
pub mod codec;
pub mod error;
pub mod mapping;
pub mod metapage;
pub mod page_number;
pub mod transactional;

pub use error::Error;
pub use page_number::PageNumber;
pub use transactional::{PageImpl, PageMut, TransactionalMemory};

verus! {

} // verus!
