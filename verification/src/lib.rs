//! A content-addressed file library: files are told apart by the SHA-256 hash
//! of what they hold, and each file that the library has taken in is recorded
//! in a small versioned text index under the library's root directory.
//!
//! The crate holds the rules of the library and touches no file itself: a
//! caller reads and moves files and hands the library what it read.

pub mod hash;
pub mod hash_order;
pub mod index;
pub mod library;
pub mod policy;
pub mod round_trip;
pub mod scan;
pub mod text;

pub use hash::{FileHash, FormatError};
pub use index::{Corruption, IndexError, LibraryFile};
pub use library::{
    Library, SortAction, SortBatch, SortError, SortEvent, StoredIndex, UnsortedFile,
};
pub use policy::SortPolicy;
