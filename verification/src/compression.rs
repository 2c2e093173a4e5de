use crate::error::ReadError;
use vstd::prelude::*;

verus! {

/// Codec identifier of a page stored as it is.
pub const CODEC_UNCOMPRESSED: i32 = 0;

/// Codec identifier of a page compressed with Snappy.
pub const CODEC_SNAPPY: i32 = 1;

/// The error type of the Snappy decompressor, carried through unopened.
#[verifier::external_type_specification]
#[verifier::external_body]
pub struct ExSnapError(snap::Error);

/// What the raw Snappy decompressor makes of `input`: the decompressed
/// bytes, or `None` where it rejects the input.
pub uninterp spec fn snappy_decoded(input: Seq<u8>) -> Option<Seq<u8>>;

/// Calls `snap::raw::Decoder::decompress_vec` on a fresh decoder.  The
/// decoder keeps no state, so the outcome depends on `input` alone; the
/// contract gives that outcome its name and claims nothing else of it.
#[verifier::external_body]
pub(crate) fn snappy_decompress(input: &[u8]) -> (r: Result<Vec<u8>, snap::Error>)
    ensures
        match r {
            Ok(out) => snappy_decoded(input@) == Some(out@),
            Err(_) => snappy_decoded(input@) is None,
        },
{
    snap::raw::Decoder::new().decompress_vec(input)
}

/// Whether this reader has a decoder for the codec `codec`.
pub open spec fn codec_supported(codec: i32) -> bool {
    codec == CODEC_UNCOMPRESSED || codec == CODEC_SNAPPY
}

/// The payload of a page, given what the Snappy decompressor made of its
/// bytes.  `raw` is the bytes of the page as stored, `snappy` the outcome of
/// decompressing them, looked at only for a Snappy page.
pub open spec fn payload_of(codec: i32, raw: Seq<u8>, snappy: Option<Seq<u8>>) -> Result<
    Seq<u8>,
    ReadError,
> {
    if codec == CODEC_UNCOMPRESSED {
        Ok(raw)
    } else if codec == CODEC_SNAPPY {
        match snappy {
            Some(out) => Ok(out),
            None => Err(ReadError::CodecFailure),
        }
    } else {
        Err(ReadError::UnsupportedCodec(codec))
    }
}

/// Turns the stored bytes of a page into its payload: as they are for an
/// uncompressed page, through the Snappy decompressor for a Snappy page.
/// Every other codec is refused by name.
pub fn decompress(codec: i32, raw: &[u8]) -> (r: Result<Vec<u8>, ReadError>)
    ensures
        match payload_of(codec, raw@, snappy_decoded(raw@)) {
            Ok(payload) => r is Ok && r->Ok_0@ == payload,
            Err(e) => r is Err && r->Err_0 == e,
        },
{
    if codec == CODEC_UNCOMPRESSED {
        Ok(vstd::slice::slice_to_vec(raw))
    } else if codec == CODEC_SNAPPY {
        match snappy_decompress(raw) {
            Ok(out) => Ok(out),
            Err(_) => Err(ReadError::CodecFailure),
        }
    } else {
        Err(ReadError::UnsupportedCodec(codec))
    }
}

} // verus!
