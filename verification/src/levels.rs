use crate::encodings::decode_stream;
use crate::encodings::encoded_region;
use crate::encodings::lemma_decode_stream_bounds;
use crate::encodings::lemma_region_ignores_trailing_bytes;
use crate::encodings::level_region;
use crate::encodings::RleIter;
use crate::error::ReadError;
use vstd::prelude::*;

verus! {

/// The levels of a page that declares `count` values, and the offset at
/// which its raw values begin.  `data` is the page's payload: a level block
/// followed by the values.  The block has to give exactly `count` levels: a
/// last run that holds more is cut short, but a block that ends early, or
/// that goes on after the run that gave the last level, is in error.
pub open spec fn page_levels(data: Seq<u8>, bit_width: nat, count: nat) -> Result<
    (Seq<u32>, int),
    ReadError,
> {
    match encoded_region(data) {
        None => Err(ReadError::TruncatedInput),
        Some(region) => {
            let decoded = decode_stream(region, 0, bit_width, count);
            match decoded.error {
                Some(e) => Err(e),
                None => if decoded.levels.len() == count && decoded.end == region.len() {
                    Ok((decoded.levels, 4 + region.len() as int))
                } else {
                    Err(ReadError::ValueCountMismatch)
                },
            }
        },
    }
}

/// The decoder never looks past the region that the prefix declares: bytes
/// appended to a payload that holds its whole level block change neither
/// the levels nor the offset of the values.
pub proof fn lemma_trailing_bytes_ignored(
    data: Seq<u8>,
    extra: Seq<u8>,
    bit_width: nat,
    count: nat,
)
    requires
        encoded_region(data) is Some,
    ensures
        page_levels(data + extra, bit_width, count) == page_levels(data, bit_width, count),
{
    lemma_region_ignores_trailing_bytes(data, extra);
}

/// Decodes the level block at the start of a page payload.  Returns the
/// `count` levels and the offset of the first value byte.
pub fn decode_levels(data: &[u8], bit_width: u32, count: u64) -> (r: Result<
    (Vec<u32>, usize),
    ReadError,
>)
    ensures
        match page_levels(data@, bit_width as nat, count as nat) {
            Ok((levels, start)) => r is Ok && r->Ok_0.0@ == levels && r->Ok_0.1 == start,
            Err(e) => r is Err && r->Err_0 == e,
        },
{
    let region: &[u8] = match level_region(data) {
        Ok(region) => region,
        Err(e) => {
            return Err(e);
        },
    };
    let start: usize = 4 + region.len();
    let mut it = RleIter::new(region, bit_width, count);
    let mut levels: Vec<u32> = Vec::new();
    let ghost whole = decode_stream(region@, 0, bit_width as nat, count as nat);
    proof {
        lemma_decode_stream_bounds(region@, 0, bit_width as nat, count as nat);
    }
    loop
        invariant
            levels@ + it.remaining().levels == whole.levels,
            it.remaining().error == whole.error,
            it.remaining().end == whole.end,
            whole == decode_stream(region@, 0, bit_width as nat, count as nat),
            encoded_region(data@) == Some(region@),
            whole.levels.len() <= count,
            0 <= whole.end <= region@.len(),
            start == 4 + region@.len(),
        decreases it.remaining().levels.len(),
    {
        let ghost before = it.remaining().levels;
        match it.next() {
            Err(e) => {
                return Err(e);
            },
            Ok(None) => {
                assert(levels@ =~= whole.levels);
                if levels.len() as u64 == count && it.position() == region.len() {
                    return Ok((levels, start));
                } else {
                    return Err(ReadError::ValueCountMismatch);
                }
            },
            Ok(Some(level)) => {
                let ghost sofar = levels@;
                levels.push(level);
                assert(levels@ + it.remaining().levels =~= sofar + before);
            },
        }
    }
}

} // verus!
