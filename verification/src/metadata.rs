use vstd::prelude::*;

verus! {

/// One entry of a file's key/value metadata.
#[derive(Debug, Clone)]
pub struct KeyValue {
    pub key: String,
    pub value: Option<String>,
}

/// The byte range of one column within one row group.
#[derive(Debug, Clone)]
pub struct ColumnChunk {
    /// Offset in the file at which the chunk's pages start.
    pub file_offset: u64,
    /// Set where the chunk lives in another file.
    pub file_path: Option<String>,
    /// Codec identifier of the chunk's pages.
    pub codec: i32,
    /// Values in the chunk, over all of its pages.
    pub num_values: u64,
    pub total_compressed_size: u64,
    pub total_uncompressed_size: u64,
    pub data_page_offset: u64,
}

/// A horizontal partition of the rows.
#[derive(Debug, Clone)]
pub struct RowGroup {
    pub num_rows: u64,
    pub total_byte_size: u64,
    /// One chunk for each leaf column, in storage order.
    pub columns: Vec<ColumnChunk>,
}

/// The metadata of a whole file.
#[derive(Debug, Clone)]
pub struct FileFooter {
    pub version: i32,
    pub num_rows: u64,
    pub row_groups: Vec<RowGroup>,
    pub created_by: Option<String>,
    pub key_value_metadata: Vec<KeyValue>,
}

} // verus!
