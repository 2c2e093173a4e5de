use crate::bytes::le_u32;
use crate::bytes::le_value;
use crate::bytes::lemma_le_value_bound;
use crate::error::ReadError;
use vstd::prelude::*;

verus! {

/// The four bytes that open and close a file: `PAR1`.
pub open spec fn magic() -> Seq<u8> {
    seq![0x50u8, 0x41u8, 0x52u8, 0x31u8]
}

fn is_magic(bytes: &[u8]) -> (yes: bool)
    ensures
        yes == (bytes@ == magic()),
{
    if bytes.len() != 4 {
        return false;
    }
    let yes = bytes[0] == 0x50 && bytes[1] == 0x41 && bytes[2] == 0x52 && bytes[3] == 0x31;
    proof {
        if yes {
            assert(bytes@ =~= magic());
        }
    }
    yes
}

/// Checks the magic bytes of a file: `head` is its first four bytes, `tail`
/// its last four.  The head is looked at first.
pub fn validate_magic(head: &[u8], tail: &[u8]) -> (r: Result<(), ReadError>)
    ensures
        r == (if head@ != magic() {
            Err::<(), ReadError>(ReadError::BadMagicAtStart)
        } else if tail@ != magic() {
            Err::<(), ReadError>(ReadError::BadMagicAtEnd)
        } else {
            Ok::<(), ReadError>(())
        }),
{
    if !is_magic(head) {
        return Err(ReadError::BadMagicAtStart);
    }
    if !is_magic(tail) {
        return Err(ReadError::BadMagicAtEnd);
    }
    Ok(())
}

/// Where the footer of a file of `file_len` bytes lies, given the last
/// eight bytes of the file: four that spell the footer's length, least
/// significant first, and the magic bytes.  The footer ends where those
/// eight bytes begin, and has to begin inside the file.
pub open spec fn footer_span(file_len: u64, trailer: Seq<u8>) -> Result<(u64, u32), ReadError> {
    if trailer.len() != 8 {
        Err(ReadError::TruncatedInput)
    } else if trailer.skip(4) != magic() {
        Err(ReadError::BadMagicAtEnd)
    } else if le_value(trailer, 0, 4) + 8 > file_len {
        Err(ReadError::TruncatedInput)
    } else {
        Ok(((file_len - 8 - le_value(trailer, 0, 4)) as u64, le_value(trailer, 0, 4) as u32))
    }
}

/// Finds the footer from the last eight bytes of the file.  Returns the
/// offset at which the footer begins and its length.
pub fn footer_range(file_len: u64, trailer: &[u8]) -> (r: Result<(u64, u32), ReadError>)
    ensures
        r == footer_span(file_len, trailer@),
{
    if trailer.len() != 8 {
        return Err(ReadError::TruncatedInput);
    }
    if !is_magic(vstd::slice::slice_subrange(trailer, 4, 8)) {
        return Err(ReadError::BadMagicAtEnd);
    }
    let footer_len: u32 = le_u32(trailer);
    proof {
        lemma_le_value_bound(trailer@, 0, 4);
    }
    if footer_len as u64 + 8 > file_len {
        return Err(ReadError::TruncatedInput);
    }
    Ok((file_len - 8 - footer_len as u64, footer_len))
}

} // verus!
