//! Disk-usage statistics for a directory tree: a running total of the sizes
//! of all regular files, an index of the files above a fixed size threshold,
//! and a report with the top-K largest files sorted descending by size.

use vstd::prelude::*;

pub mod aggregate;
pub mod human;
pub mod report;

verus! {

/// Files whose size is at or below this many bytes are counted toward the
/// running total but never recorded individually in the size index.
pub const MIN_FILE_SIZE: u64 = 1048576;

} // verus!
