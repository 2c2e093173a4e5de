use crate::error::ReadError;
use crate::metadata::ColumnChunk;
use crate::metadata::FileFooter;
use crate::metadata::RowGroup;
use crate::compression::snappy_decoded;
use crate::page::advanced;
use crate::page::lemma_offered_keeps_delivered;
use crate::page::lemma_taken_extends_delivered;
use crate::page::offered;
use crate::page::page_of;
use crate::page::stored_bytes;
use crate::page::taken;
use crate::page::PageContents;
use crate::page::PageHeader;
use crate::page::Value;
use crate::page::all_values;
use crate::page::lemma_exhausted_is_complete;
use crate::page::open_stream;
use crate::page::total_count;
use crate::page::PageIter;
use crate::page::PageRecord;
use crate::page::Signal;
use crate::page::StreamView;
use vstd::prelude::*;

verus! {

/// The value bytes of finished chunks, one chunk after the other.
pub open spec fn all_chunk_values(chunks: Seq<Seq<PageRecord>>) -> Seq<u8>
    decreases chunks.len(),
{
    if chunks.len() == 0 {
        Seq::empty()
    } else {
        all_chunk_values(chunks.drop_last()) + all_values(chunks.last())
    }
}

/// A walker over the row groups of a file as a contract sees it.
pub struct WalkerView {
    pub row_groups: Seq<RowGroup>,
    /// Index of the column in each row group's list of chunks.
    pub column_idx: usize,
    pub max_level: u32,
    /// Row groups whose chunk is finished.
    pub group: nat,
    /// The stream over the chunk of row group `group`, once it is open.
    pub stream: Option<StreamView>,
    /// The error that ended the walk, if one did.
    pub failed: Option<ReadError>,
    /// The pages of each finished chunk, in row-group order.
    pub finished: Seq<Seq<PageRecord>>,
}

impl WalkerView {
    /// The chunk of the column in row group `i`.
    pub open spec fn chunk(self, i: int) -> ColumnChunk {
        self.row_groups[i].columns@[self.column_idx as int]
    }

    /// All value bytes handed out since the walker was made.
    pub open spec fn delivered(self) -> Seq<u8> {
        all_chunk_values(self.finished) + match self.stream {
            Some(stream) => stream.delivered(),
            None => Seq::empty(),
        }
    }

    /// Every row group is finished and nothing went wrong.
    pub open spec fn exhausted(self) -> bool {
        self.failed is None && self.stream is None && self.group >= self.row_groups.len()
    }

    /// What holds of every walker.
    pub open spec fn wf(self) -> bool {
        &&& self.group <= self.row_groups.len()
        &&& self.finished.len() == self.group
        &&& forall|i: int|
            0 <= i < self.group ==> self.column_idx < (#[trigger] self.row_groups[i]).columns@.len()
                && total_count(self.finished[i]) == self.chunk(i).num_values
        &&& match self.stream {
            Some(stream) => {
                &&& stream.wf()
                &&& self.group < self.row_groups.len()
                &&& self.column_idx < self.row_groups[self.group as int].columns@.len()
                &&& stream.declared_values == self.chunk(self.group as int).num_values
            },
            None => true,
        }
    }
}

/// What asking a walker to advance makes of it, and the answer it gives.
/// A walker that has failed stays as it is.  The open stream is asked
/// first; when it is used up its chunk is finished and the walk goes on to
/// the next row group, whose chunk at the column's index is opened.  After
/// the last row group the answer is `Exhausted`.
pub open spec fn stepped(walker: WalkerView) -> (WalkerView, Result<Signal, ReadError>)
    decreases
            (if walker.group < walker.row_groups.len() {
                2 * (walker.row_groups.len() - walker.group)
            } else {
                0
            }) + (if walker.stream is None {
                1int
            } else {
                0int
            }),
{
    if let Some(e) = walker.failed {
        (walker, Err(e))
    } else {
        match walker.stream {
            Some(stream) => {
                let (after, answer) = advanced(stream);
                match answer {
                    Err(e) => (WalkerView { stream: Some(after), failed: Some(e), ..walker }, Err(e)),
                    Ok(Signal::Exhausted) => {
                        let next = WalkerView {
                            stream: None,
                            group: walker.group + 1,
                            finished: walker.finished.push(after.pages),
                            ..walker
                        };
                        if next.group >= next.row_groups.len() {
                            (next, Ok(Signal::Exhausted))
                        } else {
                            stepped(next)
                        }
                    },
                    Ok(signal) => (WalkerView { stream: Some(after), ..walker }, Ok(signal)),
                }
            },
            None => if walker.group >= walker.row_groups.len() {
                (walker, Ok(Signal::Exhausted))
            } else if walker.column_idx >= walker.row_groups[walker.group as int].columns@.len() {
                (
                    WalkerView { failed: Some(ReadError::ColumnNotFound), ..walker },
                    Err(ReadError::ColumnNotFound),
                )
            } else {
                match open_stream(walker.chunk(walker.group as int), walker.max_level) {
                    Err(e) => (WalkerView { failed: Some(e), ..walker }, Err(e)),
                    Ok(stream) => stepped(WalkerView { stream: Some(stream), ..walker }),
                }
            },
        }
    }
}

/// The measure by which a walk comes to its end.
pub open spec fn steps_left(walker: WalkerView) -> int {
    (if walker.group < walker.row_groups.len() {
        2 * (walker.row_groups.len() - walker.group)
    } else {
        0
    }) + (if walker.stream is None {
        1int
    } else {
        0int
    })
}

/// Advancing hands out nothing and loses nothing: the walker stays
/// well-formed and the bytes handed out so far stay what they were.  Where
/// the answer is `Exhausted`, every row group has been walked: there is one
/// finished chunk for each, in row-group order, each with as many values as
/// its chunk declares, and the bytes handed out are the value bytes of
/// those chunks one after the other.
pub proof fn lemma_walk_yields_every_chunk_in_order(walker: WalkerView)
    requires
        walker.wf(),
    ensures
        stepped(walker).0.wf(),
        stepped(walker).0.row_groups == walker.row_groups,
        stepped(walker).0.column_idx == walker.column_idx,
        stepped(walker).0.delivered() == walker.delivered(),
        stepped(walker).1 == Ok::<Signal, ReadError>(Signal::Exhausted) ==> {
            &&& stepped(walker).0.exhausted()
            &&& stepped(walker).0.finished.len() == walker.row_groups.len()
            &&& stepped(walker).0.delivered() == all_chunk_values(stepped(walker).0.finished)
            &&& forall|i: int|
                0 <= i < walker.row_groups.len() ==> total_count(
                    #[trigger] stepped(walker).0.finished[i],
                ) == walker.chunk(i).num_values
        },
    decreases steps_left(walker),
{
    if walker.failed is Some {
        return ;
    }
    match walker.stream {
        Some(stream) => {
            let (after, answer) = advanced(stream);
            match answer {
                Err(e) => {},
                Ok(Signal::Exhausted) => {
                    let next = WalkerView {
                        stream: None,
                        group: walker.group + 1,
                        finished: walker.finished.push(after.pages),
                        ..walker
                    };
                    lemma_exhausted_is_complete(after);
                    assert(next.finished.drop_last() =~= walker.finished);
                    assert(next.delivered() =~= walker.delivered());
                    assert forall|i: int| 0 <= i < next.group implies walker.column_idx < (
                    #[trigger] next.row_groups[i]).columns@.len() && total_count(next.finished[i])
                        == next.chunk(i).num_values by {
                        if i < walker.group {
                            assert(next.finished[i] == walker.finished[i]);
                            assert(next.chunk(i) == walker.chunk(i));
                        }
                    }
                    if next.group >= next.row_groups.len() {
                        assert(next.delivered() =~= all_chunk_values(next.finished));
                    } else {
                        lemma_walk_yields_every_chunk_in_order(next);
                    }
                },
                Ok(signal) => {},
            }
        },
        None => {
            if walker.group >= walker.row_groups.len() {
                assert(walker.delivered() =~= all_chunk_values(walker.finished));
            } else if walker.column_idx >= walker.row_groups[walker.group as int].columns@.len() {
            } else {
                match open_stream(walker.chunk(walker.group as int), walker.max_level) {
                    Err(e) => {},
                    Ok(stream) => {
                        let next = WalkerView { stream: Some(stream), ..walker };
                        assert(next.delivered() =~= walker.delivered());
                        lemma_walk_yields_every_chunk_in_order(next);
                    },
                }
            }
        },
    }
}

/// Once a walker has answered `Exhausted` it answers `Exhausted` to every
/// later call and stays as it is; likewise an error, once given, is given
/// again.
pub proof fn lemma_walk_end_is_idempotent(walker: WalkerView)
    requires
        stepped(walker).1 is Err || stepped(walker).1 == Ok::<Signal, ReadError>(
            Signal::Exhausted,
        ),
    ensures
        stepped(stepped(walker).0) == stepped(walker),
    decreases steps_left(walker),
{
    if walker.failed is Some {
        return ;
    }
    match walker.stream {
        Some(stream) => {
            let (after, answer) = advanced(stream);
            match answer {
                Err(e) => {},
                Ok(Signal::Exhausted) => {
                    let next = WalkerView {
                        stream: None,
                        group: walker.group + 1,
                        finished: walker.finished.push(after.pages),
                        ..walker
                    };
                    if next.group < next.row_groups.len() {
                        lemma_walk_end_is_idempotent(next);
                    }
                },
                Ok(signal) => {},
            }
        },
        None => {
            if walker.group >= walker.row_groups.len() {
            } else if walker.column_idx >= walker.row_groups[walker.group as int].columns@.len() {
            } else {
                match open_stream(walker.chunk(walker.group as int), walker.max_level) {
                    Err(e) => {},
                    Ok(stream) => {
                        lemma_walk_end_is_idempotent(WalkerView { stream: Some(stream), ..walker });
                    },
                }
            }
        },
    }
}

/// What offering a page to a walker makes of it: the page goes to the open
/// stream, and an error of the stream ends the walk.  A walker without an
/// open stream does not want a page.
pub open spec fn walker_offered(
    walker: WalkerView,
    span: u64,
    decoded: Result<PageContents, ReadError>,
) -> (WalkerView, Result<bool, ReadError>) {
    match walker.failed {
        Some(e) => (walker, Err(e)),
        None => match walker.stream {
            None => (walker, Ok(false)),
            Some(stream) => {
                let (after, answer) = offered(stream, span, decoded);
                (
                    WalkerView {
                        stream: Some(after),
                        failed: match answer {
                            Err(e) => Some(e),
                            Ok(_) => None,
                        },
                        ..walker
                    },
                    answer,
                )
            },
        },
    }
}

/// What reading a value of `width` bytes makes of a walker: the value comes
/// from the open stream, and an error of the stream ends the walk.  A
/// walker without an open stream has no value to give; where it is used up
/// it stays used up.
pub open spec fn walker_taken(walker: WalkerView, width: nat) -> (
    WalkerView,
    Result<(u32, Seq<u8>), ReadError>,
) {
    match walker.failed {
        Some(e) => (walker, Err(e)),
        None => match walker.stream {
            None => if walker.exhausted() {
                (walker, Err(ReadError::UnexpectedEof))
            } else {
                (
                    WalkerView { failed: Some(ReadError::UnexpectedEof), ..walker },
                    Err(ReadError::UnexpectedEof),
                )
            },
            Some(stream) => {
                let (after, answer) = taken(stream, width);
                (
                    WalkerView {
                        stream: Some(after),
                        failed: match answer {
                            Err(e) => Some(e),
                            Ok(_) => None,
                        },
                        ..walker
                    },
                    answer,
                )
            },
        },
    }
}

/// The values of a column come out as one stream: reading adds exactly the
/// bytes read to what has been handed out, and taking a page in adds
/// nothing, whichever row group the walker is in.
pub proof fn lemma_walker_stream_is_seamless(
    walker: WalkerView,
    width: nat,
    span: u64,
    decoded: Result<PageContents, ReadError>,
)
    requires
        walker.wf(),
        match decoded {
            Ok(page) => 0 <= page.values_start <= page.payload.len(),
            Err(_) => true,
        },
    ensures
        walker_taken(walker, width).0.wf(),
        match walker_taken(walker, width).1 {
            Ok((_, bytes)) => bytes.len() == width && walker_taken(walker, width).0.delivered()
                == walker.delivered() + bytes,
            Err(_) => walker_taken(walker, width).0.delivered() == walker.delivered(),
        },
        walker_offered(walker, span, decoded).0.wf(),
        walker_offered(walker, span, decoded).0.delivered() == walker.delivered(),
{
    match walker.stream {
        Some(stream) => {
            lemma_taken_extends_delivered(stream, width);
            lemma_offered_keeps_delivered(stream, span, decoded);
            match walker_taken(walker, width).1 {
                Ok((_, bytes)) => {
                    assert(walker_taken(walker, width).0.delivered() =~= walker.delivered()
                        + bytes);
                },
                Err(_) => {},
            }
        },
        None => {},
    }
}

/// A pull-based cursor over one column of a whole file: the chunks of the
/// column, row group after row group, as one stream of values.  Like the
/// chunk stream under it, the walker reads nothing itself: it says which
/// page it needs and takes the page in.
pub struct ColumnPagesIter<'a> {
    row_groups: &'a Vec<RowGroup>,
    column_idx: usize,
    max_level: u32,
    group: usize,
    stream: Option<PageIter>,
    failed: Option<ReadError>,
    finished: Ghost<Seq<Seq<PageRecord>>>,
}

impl<'a> View for ColumnPagesIter<'a> {
    type V = WalkerView;

    closed spec fn view(&self) -> WalkerView {
        WalkerView {
            row_groups: self.row_groups@,
            column_idx: self.column_idx,
            max_level: self.max_level,
            group: self.group as nat,
            stream: match self.stream {
                Some(stream) => Some(stream@),
                None => None,
            },
            failed: self.failed,
            finished: self.finished@,
        }
    }
}

impl<'a> ColumnPagesIter<'a> {
    #[verifier::type_invariant]
    spec fn inv(self) -> bool {
        self@.wf()
    }

    /// A walker over the column at index `column_idx` of each row group of
    /// `footer`, for levels up to `max_level`.
    pub fn new(footer: &'a FileFooter, column_idx: usize, max_level: u32) -> (walker:
        ColumnPagesIter<'a>)
        ensures
            walker@ == (WalkerView {
                row_groups: footer.row_groups@,
                column_idx,
                max_level,
                group: 0,
                stream: None,
                failed: None,
                finished: Seq::empty(),
            }),
            walker@.wf(),
    {
        ColumnPagesIter {
            row_groups: &footer.row_groups,
            column_idx,
            max_level,
            group: 0,
            stream: None,
            failed: None,
            finished: Ghost(Seq::empty()),
        }
    }

    /// Says what has to happen before the next value can be read, moving on
    /// to the next row group when a chunk is used up.
    pub fn advance(&mut self) -> (r: Result<Signal, ReadError>)
        ensures
            final(self)@.wf(),
            (final(self)@, r) == stepped(old(self)@),
    {
        loop
            invariant
                stepped(self@) == stepped(old(self)@),
            decreases steps_left(self@),
        {
            proof {
                use_type_invariant(&*self);
            }
            match self.failed {
                Some(e) => {
                    return Err(e);
                },
                None => {},
            }
            let ghost before = self@;
            let total: usize = self.row_groups.len();
            let mut current: Option<PageIter> = None;
            std::mem::swap(&mut current, &mut self.stream);
            match current {
                Some(mut stream) => {
                    let answer = stream.advance();
                    match answer {
                        Err(e) => {
                            *self = ColumnPagesIter {
                                row_groups: self.row_groups,
                                column_idx: self.column_idx,
                                max_level: self.max_level,
                                group: self.group,
                                stream: Some(stream),
                                failed: Some(e),
                                finished: self.finished,
                            };
                            return Err(e);
                        },
                        Ok(Signal::Exhausted) => {
                            let ghost pages = stream@.pages;
                            proof {
                                lemma_walk_yields_every_chunk_in_order(before);
                            }
                            assert(self.group < total);
                            *self = ColumnPagesIter {
                                row_groups: self.row_groups,
                                column_idx: self.column_idx,
                                max_level: self.max_level,
                                group: self.group + 1,
                                stream: None,
                                failed: None,
                                finished: Ghost(self.finished@.push(pages)),
                            };
                            if self.group >= total {
                                return Ok(Signal::Exhausted);
                            }
                        },
                        Ok(signal) => {
                            self.stream = Some(stream);
                            return Ok(signal);
                        },
                    }
                },
                None => {
                    if self.group >= total {
                        return Ok(Signal::Exhausted);
                    }
                    let columns: &Vec<ColumnChunk> = &self.row_groups[self.group].columns;
                    if self.column_idx >= columns.len() {
                        self.failed = Some(ReadError::ColumnNotFound);
                        return Err(ReadError::ColumnNotFound);
                    }
                    match PageIter::new(&columns[self.column_idx], self.max_level) {
                        Err(e) => {
                            self.failed = Some(e);
                            return Err(e);
                        },
                        Ok(stream) => {
                            self.stream = Some(stream);
                        },
                    }
                },
            }
        }
    }

    /// Whether every row group has been walked to its end.
    pub fn is_exhausted(&self) -> (done: bool)
        ensures
            done == self@.exhausted(),
    {
        self.failed.is_none() && self.stream.is_none() && self.group >= self.row_groups.len()
    }

    /// Decodes the page that starts at the first byte of `bytes` and hands
    /// it to the open stream.  `header` is the page's header, read at the
    /// offset that `advance` gave.
    pub fn load_page(&mut self, header: &PageHeader, bytes: &[u8]) -> (r: Result<bool, ReadError>)
        ensures
            final(self)@.wf(),
            match old(self)@.stream {
                Some(stream) => (final(self)@, r) == walker_offered(
                    old(self)@,
                    header.span(),
                    page_of(
                        *header,
                        stream.codec,
                        stream.bit_width as nat,
                        bytes@,
                        snappy_decoded(stored_bytes(*header, bytes@)),
                    ),
                ),
                None => final(self)@ == old(self)@ && r == (match old(self)@.failed {
                    Some(e) => Err::<bool, ReadError>(e),
                    None => Ok::<bool, ReadError>(false),
                }),
            },
    {
        proof {
            use_type_invariant(&*self);
        }
        match self.failed {
            Some(e) => {
                return Err(e);
            },
            None => {},
        }
        let mut current: Option<PageIter> = None;
        std::mem::swap(&mut current, &mut self.stream);
        match current {
            None => Ok(false),
            Some(mut stream) => {
                let answer = stream.load_page(header, bytes);
                let failed: Option<ReadError> = match answer {
                    Err(e) => Some(e),
                    Ok(_) => None,
                };
                *self = ColumnPagesIter {
                    row_groups: self.row_groups,
                    column_idx: self.column_idx,
                    max_level: self.max_level,
                    group: self.group,
                    stream: Some(stream),
                    failed,
                    finished: self.finished,
                };
                answer
            },
        }
    }

    /// Hands out the next `width` value bytes of the column, with the level
    /// of the value that they hold.
    pub fn read_value(&mut self, width: usize) -> (r: Result<Value, ReadError>)
        ensures
            final(self)@.wf(),
            final(self)@ == walker_taken(old(self)@, width as nat).0,
            match walker_taken(old(self)@, width as nat).1 {
                Ok((level, bytes)) => r is Ok && r->Ok_0.level == level && r->Ok_0.bytes@ == bytes,
                Err(e) => r is Err && r->Err_0 == e,
            },
    {
        proof {
            use_type_invariant(&*self);
        }
        match self.failed {
            Some(e) => {
                return Err(e);
            },
            None => {},
        }
        let mut current: Option<PageIter> = None;
        std::mem::swap(&mut current, &mut self.stream);
        match current {
            None => {
                if self.group < self.row_groups.len() {
                    self.failed = Some(ReadError::UnexpectedEof);
                }
                Err(ReadError::UnexpectedEof)
            },
            Some(mut stream) => {
                let answer = stream.read_value(width);
                let failed: Option<ReadError> = match &answer {
                    Err(e) => Some(*e),
                    Ok(_) => None,
                };
                *self = ColumnPagesIter {
                    row_groups: self.row_groups,
                    column_idx: self.column_idx,
                    max_level: self.max_level,
                    group: self.group,
                    stream: Some(stream),
                    failed,
                    finished: self.finished,
                };
                answer
            },
        }
    }
}

} // verus!
