//! Errors that the page manager reports.
use vstd::prelude::*;

verus! {

#[derive(Debug)]
pub enum Error {
    /// Flushing the mapping to its file failed.
    Io(std::io::Error),
    /// Every usable page is allocated.
    OutOfSpace,
    /// The mapping is too small, or its size admits no stable page layout.
    InvalidSize,
    /// The stored page size differs from the one asked for.
    PageSizeMismatch,
    /// The metapage is not one this library writes.
    Corrupted,
    /// A slot's allocator state is marked dirty: a crash interrupted a transaction.
    RepairRequired,
}

} // verus!
