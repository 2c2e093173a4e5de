use vstd::prelude::*;

verus! {

/// Why a stream stopped.  No error is retried: once one is reported the
/// stream that reported it stays failed and keeps reporting it.
#[derive(Debug, Clone, Copy, PartialEq, Eq, Structural)]
pub enum ReadError {
    /// A declared length exceeds the bytes that are available.
    TruncatedInput,
    /// An integer wider than four bytes would be needed.
    UnsupportedWidth,
    /// A page declares a compression codec that has no decoder here; the
    /// field is the codec identifier.
    UnsupportedCodec(i32),
    /// The declared uncompressed size disagrees with the bytes at hand.
    SizeMismatch,
    /// The block decompressor rejected its input.
    CodecFailure,
    /// Value counts of pages and chunk, or of levels and page, disagree.
    ValueCountMismatch,
    /// A column chunk lives in another file.
    UnsupportedExternalFile,
    /// A row group has no chunk at the index of the column asked for.
    ColumnNotFound,
    /// The file does not open with the magic bytes.
    BadMagicAtStart,
    /// The file does not close with the magic bytes.
    BadMagicAtEnd,
    /// Fewer value bytes remain in the page than were asked for.
    UnexpectedEof,
}

} // verus!
