//! A tar-like archive library with block-level deduplication and support for
//! copy-on-write reflink reconstruction on extraction.
//!
//! The archive format stores each unique content block once, as a `Data`
//! extent, and emits lightweight `Reference` extents for recurring blocks.

use vstd::prelude::*;

pub mod checksum;
pub mod create;
pub mod extract;
pub mod format;
pub mod records;
pub mod reflink;
pub mod roundtrip;

pub use create::ArchiveCreator;
pub use extract::ArchiveExtractor;
pub use format::ArchiveError;
pub use format::ArchiveHeader;
pub use format::ExtentHeader;
pub use format::ExtentType;
pub use format::FileHeader;
pub use format::FileType;

verus! {

} // verus!
