//! A read-only decoder for a page-oriented columnar storage container.
//!
//! The crate covers two coupled parts of the reader: the hybrid
//! run-length / bit-packed decoder for definition and repetition levels, and
//! the streaming reader that walks row groups, column chunks and pages and
//! hands out raw value bytes.  Every function carries a machine-checked
//! contract stated over byte sequences.

pub mod error;
pub mod bytes;
pub mod encodings;
pub mod levels;
pub mod compression;
pub mod metadata;
pub mod page;
pub mod column;
pub mod footer;

pub use crate::column::ColumnPagesIter;
pub use crate::encodings::BitPackingReader;
pub use crate::encodings::BitPackingRleReader;
pub use crate::encodings::RleIter;
pub use crate::error::ReadError;
pub use crate::page::PageIter;
