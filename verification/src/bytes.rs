use byteorder::ByteOrder;
use byteorder::LittleEndian;
use vstd::prelude::*;

verus! {

/// The unsigned integer that `n` bytes of `data` spell from position `pos`
/// on, least significant byte first.
pub open spec fn le_value(data: Seq<u8>, pos: int, n: nat) -> nat
    decreases n,
{
    if n == 0 {
        0
    } else {
        data[pos] as nat + 256 * le_value(data, pos + 1, (n - 1) as nat)
    }
}

/// Reading inside a window of `data` is reading `data` at the shifted
/// position.
pub proof fn lemma_le_value_subrange(data: Seq<u8>, from: int, to: int, k: int, n: nat)
    requires
        0 <= from <= to <= data.len(),
        0 <= k,
        from + k + n <= to,
    ensures
        le_value(data.subrange(from, to), k, n) == le_value(data, from + k, n),
    decreases n,
{
    if n > 0 {
        lemma_le_value_subrange(data, from, to, k + 1, (n - 1) as nat);
    }
}

/// `n` bytes spell a value below `256^n`; stated for the widths in use.
pub proof fn lemma_le_value_bound(data: Seq<u8>, pos: int, n: nat)
    requires
        n <= 4,
    ensures
        n == 0 ==> le_value(data, pos, n) == 0,
        n == 1 ==> le_value(data, pos, n) < 0x100,
        n == 2 ==> le_value(data, pos, n) < 0x1_0000,
        n == 3 ==> le_value(data, pos, n) < 0x100_0000,
        n == 4 ==> le_value(data, pos, n) < 0x1_0000_0000,
{
    reveal_with_fuel(le_value, 5);
}

/// Calls `byteorder::LittleEndian::read_u16`, which panics on fewer than two
/// bytes and otherwise returns the first two bytes read least significant
/// first.
#[verifier::external_body]
pub(crate) fn le_u16(buf: &[u8]) -> (r: u16)
    requires
        buf@.len() >= 2,
    ensures
        r as nat == le_value(buf@, 0, 2),
{
    LittleEndian::read_u16(buf)
}

/// Calls `byteorder::LittleEndian::read_u24`, which panics on fewer than
/// three bytes and otherwise returns the first three bytes read least
/// significant first, in a `u32`.
#[verifier::external_body]
pub(crate) fn le_u24(buf: &[u8]) -> (r: u32)
    requires
        buf@.len() >= 3,
    ensures
        r as nat == le_value(buf@, 0, 3),
{
    LittleEndian::read_u24(buf)
}

/// Calls `byteorder::LittleEndian::read_u32`, which panics on fewer than
/// four bytes and otherwise returns the first four bytes read least
/// significant first.
#[verifier::external_body]
pub(crate) fn le_u32(buf: &[u8]) -> (r: u32)
    requires
        buf@.len() >= 4,
    ensures
        r as nat == le_value(buf@, 0, 4),
{
    LittleEndian::read_u32(buf)
}

} // verus!
