//! A file format for storing a snapshot of fixed-size storage pages.
//!
//! A snapshot file carries three regions: the snapshot's identity (its
//! timeline, position, and optional predecessor), the raw page bytes in
//! write order, and an index mapping page numbers to their position.
//!
//! The regions live as chapters of a `bookfile` container; the identity
//! and index regions use this library's own fixed binary encoding, so
//! files are readable only by this library, not by writers of the same
//! chapter layout that encode those regions differently.

mod book;
mod codec;
mod error;
mod index;
mod laws;
mod meta;
mod page;
mod reader;
mod squash;
mod writer;

pub use book::CHAPTER_PAGES;
pub use book::CHAPTER_PAGE_INDEX;
pub use book::CHAPTER_SNAP_META;
pub use book::SNAPFILE_MAGIC;
pub use codec::decode_index;
pub use codec::decode_meta;
pub use codec::encode_index;
pub use codec::encode_meta;
pub use error::SnapError;
pub use laws::lemma_empty_snapshot;
pub use reader::lemma_entry_serves;
pub use laws::lemma_iteration_ascending;
pub use laws::lemma_snapshot_read_back;
pub use squash::squash;
pub use writer::SnapWriter;
pub use reader::PageIter;
pub use reader::SnapFile;
pub use meta::Predecessor;
pub use meta::SnapFileMeta;
pub use index::PageIndex;
pub use index::PageLocation;
pub use page::Page;
