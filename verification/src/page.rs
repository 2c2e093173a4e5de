use crate::compression::codec_supported;
use crate::compression::decompress;
use crate::compression::payload_of;
use crate::compression::snappy_decoded;
use crate::compression::CODEC_UNCOMPRESSED;
use crate::error::ReadError;
use crate::levels::decode_levels;
use crate::levels::page_levels;
use crate::encodings::bit_width;
use crate::encodings::bit_width_of;
use crate::metadata::ColumnChunk;
use vstd::slice::slice_to_vec;
use vstd::prelude::*;
use vstd::slice::slice_subrange;

verus! {

/// What a page holds.
#[derive(Debug, Clone, Copy, PartialEq, Eq, Structural)]
pub enum PageKind {
    Data,
    Dictionary,
    DataV2,
}

/// The metadata that precedes the bytes of one page.
#[derive(Debug, Clone, Copy, PartialEq, Eq, Structural)]
pub struct PageHeader {
    pub kind: PageKind,
    /// Bytes that the header itself takes in the file, just before the
    /// stored bytes of the page.
    pub header_size: u32,
    /// Bytes that the page takes as stored.
    pub compressed_size: u32,
    /// Bytes of the page's payload.
    pub uncompressed_size: u32,
    /// Values in the page, and so levels in its level block.
    pub value_count: u32,
}

/// The contents of one page, as a contract sees them.
pub struct PageContents {
    pub kind: PageKind,
    /// One level for each value that the header declares.
    pub levels: Seq<u32>,
    /// The payload: the level block, then the raw values.
    pub payload: Seq<u8>,
    /// Offset in the payload at which the raw values begin.
    pub values_start: int,
}

impl PageContents {
    /// The raw value bytes.
    pub open spec fn values(self) -> Seq<u8> {
        self.payload.skip(self.values_start)
    }
}

/// A page with its levels decoded.
#[derive(Debug)]
pub struct DecodedPage {
    kind: PageKind,
    levels: Vec<u32>,
    payload: Vec<u8>,
    values_start: usize,
}

impl View for DecodedPage {
    type V = PageContents;

    closed spec fn view(&self) -> PageContents {
        PageContents {
            kind: self.kind,
            levels: self.levels@,
            payload: self.payload@,
            values_start: self.values_start as int,
        }
    }
}

impl DecodedPage {
    #[verifier::type_invariant]
    spec fn inv(self) -> bool {
        self.values_start <= self.payload@.len()
    }

    pub fn kind(&self) -> (kind: PageKind)
        ensures
            kind == self@.kind,
    {
        self.kind
    }

    /// The decoded levels, one for each declared value.
    pub fn levels(&self) -> (levels: &[u32])
        ensures
            levels@ == self@.levels,
    {
        self.levels.as_slice()
    }

    /// Offset in the payload at which the raw values begin.
    pub fn values_start(&self) -> (start: usize)
        ensures
            start == self@.values_start,
            start <= self@.payload.len(),
    {
        proof {
            use_type_invariant(self);
        }
        self.values_start
    }

    /// The raw value bytes: the payload after the level block.
    pub fn values(&self) -> (values: &[u8])
        ensures
            values@ == self@.values(),
    {
        proof {
            use_type_invariant(self);
        }
        slice_subrange(self.payload.as_slice(), self.values_start, self.payload.len())
    }
}

/// The page that a payload holds: the payload has to have the size that the
/// header declares, and to open with a level block that gives one level for
/// each declared value.
pub open spec fn payload_page(header: PageHeader, bit_width: nat, payload: Seq<u8>) -> Result<
    PageContents,
    ReadError,
> {
    if payload.len() != header.uncompressed_size {
        Err(ReadError::SizeMismatch)
    } else {
        match page_levels(payload, bit_width, header.value_count as nat) {
            Err(e) => Err(e),
            Ok((levels, start)) => Ok(
                PageContents { kind: header.kind, levels, payload, values_start: start },
            ),
        }
    }
}

/// Decodes the levels of a page from its payload.
pub fn decode_payload(header: &PageHeader, bit_width: u32, payload: Vec<u8>) -> (r: Result<
    DecodedPage,
    ReadError,
>)
    ensures
        match payload_page(*header, bit_width as nat, payload@) {
            Ok(page) => r is Ok && r->Ok_0@ == page,
            Err(e) => r is Err && r->Err_0 == e,
        },
{
    if payload.len() as u64 != header.uncompressed_size as u64 {
        return Err(ReadError::SizeMismatch);
    }
    match decode_levels(payload.as_slice(), bit_width, header.value_count as u64) {
        Err(e) => Err(e),
        Ok((levels, values_start)) => Ok(
            DecodedPage { kind: header.kind, levels, payload, values_start },
        ),
    }
}

/// The page that the bytes `bytes` hold at their start, under the codec
/// `codec`, given what the Snappy decompressor makes of the page's stored
/// bytes.  A codec without a decoder is refused before anything is read; an
/// uncompressed page has to declare the same size twice; and `bytes` has to
/// hold all the bytes that the header declares.
pub open spec fn page_of(
    header: PageHeader,
    codec: i32,
    bit_width: nat,
    bytes: Seq<u8>,
    snappy: Option<Seq<u8>>,
) -> Result<PageContents, ReadError> {
    if !codec_supported(codec) {
        Err(ReadError::UnsupportedCodec(codec))
    } else if codec == CODEC_UNCOMPRESSED && header.compressed_size != header.uncompressed_size {
        Err(ReadError::SizeMismatch)
    } else if bytes.len() < header.compressed_size {
        Err(ReadError::TruncatedInput)
    } else {
        match payload_of(codec, bytes.take(header.compressed_size as int), snappy) {
            Err(e) => Err(e),
            Ok(payload) => payload_page(header, bit_width, payload),
        }
    }
}

impl PageHeader {
    /// Bytes from the start of the header to the start of the next page.
    pub open spec fn spec_span(&self) -> u64 {
        (self.header_size + self.compressed_size) as u64
    }

    /// Bytes from the start of the header to the start of the next page.
    #[verifier::when_used_as_spec(spec_span)]
    pub fn span(&self) -> (n: u64)
        ensures
            n == self.spec_span(),
    {
        self.header_size as u64 + self.compressed_size as u64
    }
}

/// The stored bytes of the page at the start of `bytes`.
pub open spec fn stored_bytes(header: PageHeader, bytes: Seq<u8>) -> Seq<u8> {
    bytes.take(header.compressed_size as int)
}

/// Decodes the page that starts at the first byte of `bytes`.  Exactly as
/// many bytes are read as the header declares.
pub fn decode_page(header: &PageHeader, codec: i32, bit_width: u32, bytes: &[u8]) -> (r: Result<
    DecodedPage,
    ReadError,
>)
    ensures
        match page_of(
            *header,
            codec,
            bit_width as nat,
            bytes@,
            snappy_decoded(stored_bytes(*header, bytes@)),
        ) {
            Ok(page) => r is Ok && r->Ok_0@ == page,
            Err(e) => r is Err && r->Err_0 == e,
        },
{
    if codec != CODEC_UNCOMPRESSED && codec != crate::compression::CODEC_SNAPPY {
        return Err(ReadError::UnsupportedCodec(codec));
    }
    if codec == CODEC_UNCOMPRESSED && header.compressed_size != header.uncompressed_size {
        return Err(ReadError::SizeMismatch);
    }
    if (bytes.len() as u64) < header.compressed_size as u64 {
        return Err(ReadError::TruncatedInput);
    }
    let raw: &[u8] = slice_subrange(bytes, 0, header.compressed_size as usize);
    match decompress(codec, raw) {
        Err(e) => Err(e),
        Ok(payload) => decode_payload(header, bit_width, payload),
    }
}

/// A page under a codec without a decoder is refused with the codec's
/// identifier, whatever else it holds.
pub proof fn lemma_unsupported_codec_is_refused(
    header: PageHeader,
    codec: i32,
    bit_width: nat,
    bytes: Seq<u8>,
    snappy: Option<Seq<u8>>,
)
    requires
        !codec_supported(codec),
    ensures
        page_of(header, codec, bit_width, bytes, snappy) == Err::<PageContents, ReadError>(
            ReadError::UnsupportedCodec(codec),
        ),
{
}

/// An uncompressed page whose two declared sizes differ is refused,
/// whatever else it holds.
pub proof fn lemma_uncompressed_sizes_must_agree(
    header: PageHeader,
    bit_width: nat,
    bytes: Seq<u8>,
    snappy: Option<Seq<u8>>,
)
    requires
        header.compressed_size != header.uncompressed_size,
    ensures
        page_of(header, CODEC_UNCOMPRESSED, bit_width, bytes, snappy) == Err::<
            PageContents,
            ReadError,
        >(ReadError::SizeMismatch),
{
}

/// Where a chunk stream stands.
#[derive(Debug, Clone, Copy, PartialEq, Eq, Structural)]
pub enum StreamState {
    /// No page has been loaded yet.
    BeforeFirstPage,
    /// A page is loaded; it may or may not have unread value bytes.
    PageLoaded,
    /// The chunk is used up.  Nothing leads out of this state.
    ChunkExhausted,
    /// An error was reported.  Nothing leads out of this state, and every
    /// later call reports the same error.
    Failed(ReadError),
}

/// What a stream tells its caller to do next.
#[derive(Debug, Clone, Copy, PartialEq, Eq, Structural)]
pub enum Signal {
    /// Value bytes are waiting to be read.
    Ready,
    /// The page whose header starts at `offset` has to be fetched and
    /// loaded.
    NeedPage { offset: u64 },
    /// No value is left.
    Exhausted,
}

/// One raw value with the level that belongs to it.
#[derive(Debug, Clone, PartialEq, Eq)]
pub struct Value {
    pub level: u32,
    pub bytes: Vec<u8>,
}

/// What a stream remembers of a page that it has loaded.
pub struct PageRecord {
    pub value_count: nat,
    pub values: Seq<u8>,
}

/// The sum of the value counts of `pages`.
pub open spec fn total_count(pages: Seq<PageRecord>) -> nat
    decreases pages.len(),
{
    if pages.len() == 0 {
        0
    } else {
        total_count(pages.drop_last()) + pages.last().value_count
    }
}

/// The value bytes of `pages`, one page after the other.
pub open spec fn all_values(pages: Seq<PageRecord>) -> Seq<u8>
    decreases pages.len(),
{
    if pages.len() == 0 {
        Seq::empty()
    } else {
        all_values(pages.drop_last()) + pages.last().values
    }
}

/// A chunk stream as a contract sees it.
pub struct StreamView {
    pub state: StreamState,
    /// Offset in the file of the next page to load.
    pub next_page_offset: u64,
    /// Offset in the file at which the chunk ends.
    pub chunk_end_offset: u64,
    pub codec: i32,
    pub bit_width: u32,
    /// Values that the chunk declares.
    pub declared_values: u64,
    /// The pages loaded so far, in the order of loading.
    pub pages: Seq<PageRecord>,
    /// The page loaded last, if any.
    pub page: Option<PageContents>,
    /// Value bytes of that page that have been handed out.
    pub cursor: int,
    /// Values of that page that have been handed out.
    pub value_index: int,
}

impl StreamView {
    /// Value bytes of the current page that are still to be read.
    pub open spec fn unread(self) -> Seq<u8> {
        match self.page {
            Some(page) => page.values().skip(self.cursor),
            None => Seq::empty(),
        }
    }

    /// Levels of the current page.
    pub open spec fn levels(self) -> Seq<u32> {
        match self.page {
            Some(page) => page.levels,
            None => Seq::empty(),
        }
    }

    /// All value bytes handed out since the stream was opened.
    pub open spec fn delivered(self) -> Seq<u8> {
        match self.page {
            Some(page) => all_values(self.pages.drop_last()) + page.values().take(self.cursor),
            None => Seq::empty(),
        }
    }

    /// The stream is live, has nothing to read, and the chunk goes on.
    pub open spec fn wants_page(self) -> bool {
        &&& self.state == StreamState::BeforeFirstPage || self.state == StreamState::PageLoaded
        &&& self.unread().len() == 0
        &&& self.next_page_offset < self.chunk_end_offset
    }

    /// What holds of every stream.
    pub open spec fn wf(self) -> bool {
        &&& self.page is Some <==> self.pages.len() > 0
        &&& match self.page {
            Some(page) => {
                &&& 0 <= page.values_start <= page.payload.len()
                &&& 0 <= self.cursor <= page.values().len()
                &&& 0 <= self.value_index
                &&& self.pages.last() == (PageRecord {
                    value_count: page.levels.len(),
                    values: page.values(),
                })
            },
            None => self.cursor == 0 && self.value_index == 0,
        }
        &&& total_count(self.pages) <= self.declared_values
        &&& self.state == StreamState::BeforeFirstPage ==> self.page is None
        &&& self.state == StreamState::PageLoaded ==> self.page is Some
        &&& self.state == StreamState::ChunkExhausted ==> {
            &&& total_count(self.pages) == self.declared_values
            &&& self.unread().len() == 0
            &&& self.next_page_offset >= self.chunk_end_offset
        }
    }
}

/// A page boundary leaves no seam: what a stream has handed out, followed
/// by what its current page still holds, is the value bytes of all loaded
/// pages in the order of loading.
pub proof fn lemma_no_seam(stream: StreamView)
    requires
        stream.wf(),
    ensures
        stream.delivered() + stream.unread() == all_values(stream.pages),
{
    match stream.page {
        Some(page) => {
            let values = page.values();
            assert(values.take(stream.cursor) + values.skip(stream.cursor) =~= values);
            assert(stream.delivered() + stream.unread() =~= all_values(stream.pages.drop_last())
                + values);
        },
        None => {
            assert(stream.delivered() + stream.unread() =~= Seq::<u8>::empty());
        },
    }
}

/// A stream that is used up has loaded pages whose value counts add up to
/// the count that the chunk declares, and has handed out every value byte
/// of every one of them.
pub proof fn lemma_exhausted_is_complete(stream: StreamView)
    requires
        stream.wf(),
        stream.state == StreamState::ChunkExhausted,
    ensures
        total_count(stream.pages) == stream.declared_values,
        stream.delivered() == all_values(stream.pages),
{
    lemma_no_seam(stream);
    assert(stream.delivered() + stream.unread() =~= stream.delivered());
}

/// The stream that a fresh chunk gives: nothing loaded, the first page at
/// the chunk's offset, the end after the chunk's compressed size.
pub open spec fn opened(chunk: ColumnChunk, max_level: u32) -> StreamView {
    StreamView {
        state: StreamState::BeforeFirstPage,
        next_page_offset: chunk.file_offset,
        chunk_end_offset: (chunk.file_offset + chunk.total_compressed_size) as u64,
        codec: chunk.codec,
        bit_width: bit_width_of(max_level as nat) as u32,
        declared_values: chunk.num_values,
        pages: Seq::empty(),
        page: None,
        cursor: 0,
        value_index: 0,
    }
}

/// What opening a stream over `chunk` gives.  A chunk that lives in another
/// file is refused, and so is one whose end lies beyond the largest offset.
pub open spec fn open_stream(chunk: ColumnChunk, max_level: u32) -> Result<StreamView, ReadError> {
    if chunk.file_path is Some {
        Err(ReadError::UnsupportedExternalFile)
    } else if chunk.file_offset + chunk.total_compressed_size > u64::MAX {
        Err(ReadError::TruncatedInput)
    } else {
        Ok(opened(chunk, max_level))
    }
}

/// What handing a decoded page, or the error that decoding gave, to a
/// stream that wants a page makes of the stream.  `span` is what the page
/// takes of the chunk, its header included: the next page is expected that
/// many bytes on.  The page has to lie inside the chunk, and its values may
/// not take the chunk past the count that it declares.
pub open spec fn accepted(
    stream: StreamView,
    span: u64,
    decoded: Result<PageContents, ReadError>,
) -> StreamView {
    match decoded {
        Err(e) => StreamView { state: StreamState::Failed(e), ..stream },
        Ok(page) => if span > stream.chunk_end_offset - stream.next_page_offset {
            StreamView { state: StreamState::Failed(ReadError::TruncatedInput), ..stream }
        } else if total_count(stream.pages) + page.levels.len() > stream.declared_values {
            StreamView { state: StreamState::Failed(ReadError::ValueCountMismatch), ..stream }
        } else {
            StreamView {
                state: StreamState::PageLoaded,
                next_page_offset: (stream.next_page_offset + span) as u64,
                pages: stream.pages.push(
                    PageRecord { value_count: page.levels.len(), values: page.values() },
                ),
                page: Some(page),
                cursor: 0,
                value_index: 0,
                ..stream
            }
        },
    }
}

/// What asking a stream to advance makes of it, and the answer it gives.
/// A stream that has failed or is used up stays as it is.  While the
/// current page has unread value bytes the answer is `Ready`; otherwise the
/// next page is asked for; and at the end of the chunk the stream ends, in
/// `ChunkExhausted` where the loaded pages hold as many values as the chunk
/// declares, in failure where they do not.
pub open spec fn advanced(stream: StreamView) -> (StreamView, Result<Signal, ReadError>) {
    match stream.state {
        StreamState::Failed(e) => (stream, Err(e)),
        StreamState::ChunkExhausted => (stream, Ok(Signal::Exhausted)),
        _ => if stream.unread().len() > 0 {
            (stream, Ok(Signal::Ready))
        } else if stream.next_page_offset < stream.chunk_end_offset {
            (stream, Ok(Signal::NeedPage { offset: stream.next_page_offset }))
        } else if total_count(stream.pages) == stream.declared_values {
            (StreamView { state: StreamState::ChunkExhausted, ..stream }, Ok(Signal::Exhausted))
        } else {
            (
                StreamView { state: StreamState::Failed(ReadError::ValueCountMismatch), ..stream },
                Err(ReadError::ValueCountMismatch),
            )
        },
    }
}

/// A stream ends in `ChunkExhausted` only where the value counts of its
/// pages add up to the count that the chunk declares; where they do not,
/// the end of the chunk is a `ValueCountMismatch`.
pub proof fn lemma_chunk_end_checks_value_count(stream: StreamView)
    requires
        stream.state == StreamState::BeforeFirstPage || stream.state == StreamState::PageLoaded,
        stream.unread().len() == 0,
        stream.next_page_offset >= stream.chunk_end_offset,
    ensures
        total_count(stream.pages) == stream.declared_values ==> advanced(stream).1 == Ok::<
            Signal,
            ReadError,
        >(Signal::Exhausted),
        total_count(stream.pages) != stream.declared_values ==> advanced(stream).1 == Err::<
            Signal,
            ReadError,
        >(ReadError::ValueCountMismatch),
{
}

/// Asking a stream that is used up, or that has failed, changes nothing
/// and gives the same answer again.
pub proof fn lemma_advance_is_idempotent_at_the_end(stream: StreamView)
    requires
        advanced(stream).1 is Err || advanced(stream).1 == Ok::<Signal, ReadError>(
            Signal::Exhausted,
        ),
    ensures
        advanced(advanced(stream).0) == advanced(stream),
{
}

/// What offering a page to a stream makes of it, and the answer it gives:
/// the error again where the stream has failed, `Ok(false)` where it does
/// not want a page, and else what `accepted` says, with `Ok(true)` for a
/// page taken in.
pub open spec fn offered(
    stream: StreamView,
    span: u64,
    decoded: Result<PageContents, ReadError>,
) -> (StreamView, Result<bool, ReadError>) {
    match stream.state {
        StreamState::Failed(e) => (stream, Err(e)),
        _ => if !stream.wants_page() {
            (stream, Ok(false))
        } else {
            let after = accepted(stream, span, decoded);
            (
                after,
                match after.state {
                    StreamState::Failed(e) => Err(e),
                    _ => Ok(true),
                },
            )
        },
    }
}

/// What reading a value of `width` bytes makes of a stream, and the level
/// and bytes that it gives.  Fewer than `width` unread bytes are an error,
/// and so is a value for which the page has no level; either ends the
/// stream.  A stream that is used up answers with an error and stays used
/// up.
pub open spec fn taken(stream: StreamView, width: nat) -> (
    StreamView,
    Result<(u32, Seq<u8>), ReadError>,
) {
    match stream.state {
        StreamState::Failed(e) => (stream, Err(e)),
        StreamState::ChunkExhausted => (stream, Err(ReadError::UnexpectedEof)),
        _ => if stream.unread().len() < width {
            (
                StreamView { state: StreamState::Failed(ReadError::UnexpectedEof), ..stream },
                Err(ReadError::UnexpectedEof),
            )
        } else if stream.value_index >= stream.levels().len() {
            (
                StreamView { state: StreamState::Failed(ReadError::ValueCountMismatch), ..stream },
                Err(ReadError::ValueCountMismatch),
            )
        } else {
            (
                StreamView {
                    cursor: stream.cursor + width,
                    value_index: stream.value_index + 1,
                    ..stream
                },
                Ok((stream.levels()[stream.value_index], stream.unread().take(width as int))),
            )
        },
    }
}

/// Reading hands out the next bytes in order: what has been handed out
/// grows by exactly the bytes read, across page boundaries as within a
/// page.
pub proof fn lemma_taken_extends_delivered(stream: StreamView, width: nat)
    requires
        stream.wf(),
    ensures
        taken(stream, width).0.wf(),
        taken(stream, width).0.pages == stream.pages,
        match taken(stream, width).1 {
            Ok((_, bytes)) => bytes.len() == width && taken(stream, width).0.delivered()
                == stream.delivered() + bytes,
            Err(_) => taken(stream, width).0.delivered() == stream.delivered(),
        },
{
    match taken(stream, width).1 {
        Ok((_, bytes)) => {
            let all = stream.page->Some_0.values();
            let c = stream.cursor;
            assert(all.take(c + width) =~= all.take(c) + all.skip(c).take(width as int));
            assert(taken(stream, width).0.delivered() =~= stream.delivered() + bytes);
        },
        Err(_) => {},
    }
}

/// Taking a page in hands out nothing and loses nothing: a page is taken
/// only when the page before it has been read to its end, so what has been
/// handed out stays what it was, and the new page's values come next.
pub proof fn lemma_offered_keeps_delivered(
    stream: StreamView,
    span: u64,
    decoded: Result<PageContents, ReadError>,
)
    requires
        stream.wf(),
        match decoded {
            Ok(page) => 0 <= page.values_start <= page.payload.len(),
            Err(_) => true,
        },
    ensures
        offered(stream, span, decoded).0.wf(),
        offered(stream, span, decoded).0.delivered() == stream.delivered(),
        offered(stream, span, decoded).1 == Ok::<bool, ReadError>(true) ==> offered(
            stream,
            span,
            decoded,
        ).0.unread() == decoded->Ok_0.values(),
{
    let after = offered(stream, span, decoded).0;
    if offered(stream, span, decoded).1 == Ok::<bool, ReadError>(true) {
        let page = decoded->Ok_0;
        lemma_no_seam(stream);
        assert(after.pages.drop_last() =~= stream.pages);
        assert(stream.delivered() + stream.unread() =~= stream.delivered());
        assert(after.delivered() =~= all_values(stream.pages));
        assert(after.unread() =~= page.values());
    }
}

/// A stream that has failed is at its end: whatever is asked of it, it
/// stays as it is and gives its error again.
pub proof fn lemma_failed_is_terminal(
    stream: StreamView,
    e: ReadError,
    width: nat,
    span: u64,
    decoded: Result<PageContents, ReadError>,
)
    requires
        stream.state == StreamState::Failed(e),
    ensures
        advanced(stream) == (stream, Err::<Signal, ReadError>(e)),
        taken(stream, width) == (stream, Err::<(u32, Seq<u8>), ReadError>(e)),
        offered(stream, span, decoded) == (stream, Err::<bool, ReadError>(e)),
{
}

/// A page offered to a stream whose codec has no decoder fails the stream
/// with the codec's identifier, whatever the page holds; nothing else of
/// the stream changes.
pub proof fn lemma_unsupported_codec_fails_stream(
    stream: StreamView,
    header: PageHeader,
    bytes: Seq<u8>,
    snappy: Option<Seq<u8>>,
)
    requires
        stream.wants_page(),
        !codec_supported(stream.codec),
    ensures
        offered(
            stream,
            header.span(),
            page_of(header, stream.codec, stream.bit_width as nat, bytes, snappy),
        ) == (
            StreamView { state: StreamState::Failed(ReadError::UnsupportedCodec(stream.codec)), ..stream },
            Err::<bool, ReadError>(ReadError::UnsupportedCodec(stream.codec)),
        ),
{
}

/// A pull-based cursor over the pages of one column chunk.  The stream
/// does no reading of its own: `advance` says which page it needs, the
/// caller fetches that page, and `load_page` takes it in.
pub struct PageIter {
    next_page_offset: u64,
    chunk_end_offset: u64,
    codec: i32,
    bit_width: u32,
    declared_values: u64,
    seen_values: u64,
    state: StreamState,
    page: Option<DecodedPage>,
    cursor: usize,
    value_index: usize,
    pages: Ghost<Seq<PageRecord>>,
}

impl View for PageIter {
    type V = StreamView;

    closed spec fn view(&self) -> StreamView {
        StreamView {
            state: self.state,
            next_page_offset: self.next_page_offset,
            chunk_end_offset: self.chunk_end_offset,
            codec: self.codec,
            bit_width: self.bit_width,
            declared_values: self.declared_values,
            pages: self.pages@,
            page: match self.page {
                Some(page) => Some(page@),
                None => None,
            },
            cursor: self.cursor as int,
            value_index: self.value_index as int,
        }
    }
}

impl PageIter {
    #[verifier::type_invariant]
    spec fn inv(self) -> bool {
        &&& self@.wf()
        &&& self.seen_values == total_count(self.pages@)
    }

    /// Opens a stream over `chunk` for a column whose levels go up to
    /// `max_level`.
    pub fn new(chunk: &ColumnChunk, max_level: u32) -> (r: Result<PageIter, ReadError>)
        ensures
            match open_stream(*chunk, max_level) {
                Ok(stream) => r is Ok && r->Ok_0@ == stream && stream.wf(),
                Err(e) => r is Err && r->Err_0 == e,
            },
    {
        if chunk.file_path.is_some() {
            return Err(ReadError::UnsupportedExternalFile);
        }
        if chunk.total_compressed_size > u64::MAX - chunk.file_offset {
            return Err(ReadError::TruncatedInput);
        }
        Ok(
            PageIter {
                next_page_offset: chunk.file_offset,
                chunk_end_offset: chunk.file_offset + chunk.total_compressed_size,
                codec: chunk.codec,
                bit_width: bit_width(max_level),
                declared_values: chunk.num_values,
                seen_values: 0,
                state: StreamState::BeforeFirstPage,
                page: None,
                cursor: 0,
                value_index: 0,
                pages: Ghost(Seq::empty()),
            },
        )
    }

    /// Where the stream stands.
    pub fn state(&self) -> (state: StreamState)
        ensures
            state == self@.state,
    {
        self.state
    }

    /// Says what has to happen before the next value can be read, and ends
    /// the stream at the end of the chunk.
    pub fn advance(&mut self) -> (r: Result<Signal, ReadError>)
        ensures
            final(self)@.wf(),
            (final(self)@, r) == advanced(old(self)@),
    {
        proof {
            use_type_invariant(&*self);
        }
        match self.state {
            StreamState::Failed(e) => {
                return Err(e);
            },
            StreamState::ChunkExhausted => {
                return Ok(Signal::Exhausted);
            },
            _ => {},
        }
        if self.unread_len() > 0 {
            return Ok(Signal::Ready);
        }
        if self.next_page_offset < self.chunk_end_offset {
            return Ok(Signal::NeedPage { offset: self.next_page_offset });
        }
        if self.seen_values == self.declared_values {
            self.state = StreamState::ChunkExhausted;
            Ok(Signal::Exhausted)
        } else {
            self.state = StreamState::Failed(ReadError::ValueCountMismatch);
            Err(ReadError::ValueCountMismatch)
        }
    }

    /// Value bytes of the current page that are still to be read.
    pub fn unread_len(&self) -> (n: usize)
        ensures
            n == self@.unread().len(),
    {
        proof {
            use_type_invariant(self);
        }
        match &self.page {
            Some(page) => page.values().len() - self.cursor,
            None => 0,
        }
    }

    /// Takes in a page that was decoded for this stream, or the error that
    /// decoding it gave; `span` is what the page takes of the chunk, its
    /// header included.  A stream that has failed reports its error again;
    /// a stream that does not want a page leaves the page aside and
    /// answers `Ok(false)`.  Otherwise the page becomes the current one, or
    /// the stream fails.
    pub fn accept_page(&mut self, span: u64, decoded: Result<DecodedPage, ReadError>) -> (r: Result<
        bool,
        ReadError,
    >)
        ensures
            final(self)@.wf(),
            (final(self)@, r) == offered(
                old(self)@,
                span,
                match decoded {
                    Ok(page) => Ok(page@),
                    Err(e) => Err(e),
                },
            ),
    {
        proof {
            use_type_invariant(&*self);
        }
        match self.state {
            StreamState::Failed(e) => {
                return Err(e);
            },
            StreamState::ChunkExhausted => {
                return Ok(false);
            },
            _ => {},
        }
        if self.unread_len() > 0 || self.next_page_offset >= self.chunk_end_offset {
            return Ok(false);
        }
        let page: DecodedPage = match decoded {
            Err(e) => {
                self.state = StreamState::Failed(e);
                return Err(e);
            },
            Ok(page) => page,
        };
        if span > self.chunk_end_offset - self.next_page_offset {
            self.state = StreamState::Failed(ReadError::TruncatedInput);
            return Err(ReadError::TruncatedInput);
        }
        let count: usize = page.levels().len();
        if count as u64 > self.declared_values - self.seen_values {
            self.state = StreamState::Failed(ReadError::ValueCountMismatch);
            return Err(ReadError::ValueCountMismatch);
        }
        let ghost record = PageRecord { value_count: page@.levels.len(), values: page@.values() };
        let ghost pages = self.pages@.push(record);
        proof {
            use_type_invariant(&page);
            assert(pages.drop_last() =~= self.pages@);
            assert(pages.last() == record);
        }
        *self = PageIter {
            next_page_offset: self.next_page_offset + span,
            chunk_end_offset: self.chunk_end_offset,
            codec: self.codec,
            bit_width: self.bit_width,
            declared_values: self.declared_values,
            seen_values: self.seen_values + count as u64,
            state: StreamState::PageLoaded,
            page: Some(page),
            cursor: 0,
            value_index: 0,
            pages: Ghost(pages),
        };
        Ok(true)
    }

    /// Decodes the page whose stored bytes begin at the first byte of
    /// `bytes` and takes it in.  `header` is the page's header, read at the
    /// offset that `advance` gave.  The stream then expects the next page
    /// after the header and the stored bytes of this one.
    pub fn load_page(&mut self, header: &PageHeader, bytes: &[u8]) -> (r: Result<bool, ReadError>)
        ensures
            final(self)@.wf(),
            (final(self)@, r) == offered(
                old(self)@,
                header.span(),
                page_of(
                    *header,
                    old(self)@.codec,
                    old(self)@.bit_width as nat,
                    bytes@,
                    snappy_decoded(stored_bytes(*header, bytes@)),
                ),
            ),
    {
        proof {
            use_type_invariant(&*self);
        }
        match self.state {
            StreamState::Failed(e) => {
                return Err(e);
            },
            StreamState::ChunkExhausted => {
                return Ok(false);
            },
            _ => {},
        }
        if self.unread_len() > 0 || self.next_page_offset >= self.chunk_end_offset {
            return Ok(false);
        }
        let decoded = decode_page(header, self.codec, self.bit_width, bytes);
        self.accept_page(header.span(), decoded)
    }

    /// Hands out the next `width` value bytes of the current page, with the
    /// level of the value that they hold.  Fewer than `width` unread bytes
    /// are an error, and so is a value for which the page has no level.
    pub fn read_value(&mut self, width: usize) -> (r: Result<Value, ReadError>)
        ensures
            final(self)@.wf(),
            final(self)@ == taken(old(self)@, width as nat).0,
            match taken(old(self)@, width as nat).1 {
                Ok((level, bytes)) => r is Ok && r->Ok_0.level == level && r->Ok_0.bytes@ == bytes,
                Err(e) => r is Err && r->Err_0 == e,
            },
    {
        proof {
            use_type_invariant(&*self);
        }
        match self.state {
            StreamState::Failed(e) => {
                return Err(e);
            },
            StreamState::ChunkExhausted => {
                return Err(ReadError::UnexpectedEof);
            },
            _ => {},
        }
        if self.unread_len() < width {
            self.state = StreamState::Failed(ReadError::UnexpectedEof);
            return Err(ReadError::UnexpectedEof);
        }
        let found: Option<(u32, Vec<u8>)> = match &self.page {
            None => None,
            Some(page) => {
                let levels: &[u32] = page.levels();
                if self.value_index >= levels.len() {
                    None
                } else {
                    let values: &[u8] = page.values();
                    assert(self@.page == Some(page@));
                    let unread: &[u8] = slice_subrange(values, self.cursor, values.len());
                    assert(unread@ =~= self@.unread());
                    let bytes: Vec<u8> = slice_to_vec(slice_subrange(unread, 0, width));
                    assert(bytes@ =~= self@.unread().take(width as int));
                    Some((levels[self.value_index], bytes))
                }
            },
        };
        match found {
            None => {
                self.state = StreamState::Failed(ReadError::ValueCountMismatch);
                Err(ReadError::ValueCountMismatch)
            },
            Some((level, bytes)) => {
                self.cursor = self.cursor + width;
                self.value_index = self.value_index + 1;
                Ok(Value { level, bytes })
            },
        }
    }
}

} // verus!
