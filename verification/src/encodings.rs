use vstd::prelude::*;
use vstd::arithmetic::power2::pow2;
use vstd::arithmetic::power2::lemma_pow2_unfold;
use crate::bytes::le_u16;
use crate::bytes::le_u24;
use crate::bytes::le_u32;
use crate::bytes::le_value;
use crate::bytes::lemma_le_value_bound;
use crate::bytes::lemma_le_value_subrange;
use crate::error::ReadError;
use vstd::slice::slice_subrange;
use vstd::arithmetic::power2::lemma2_to64;
use vstd::arithmetic::power2::lemma2_to64_rest;
use vstd::arithmetic::power2::lemma_pow2_strictly_increases;

verus! {

/// The number of bits that a level stream spends on each value when the
/// largest level is `max`: the least `w` with `max < 2^w`.
pub open spec fn bit_width_of(max: nat) -> nat
    decreases max,
{
    if max == 0 {
        0
    } else {
        1 + bit_width_of(max / 2)
    }
}

/// `bit_width_of(max)` is the least exponent whose power of two exceeds
/// `max`.
pub proof fn lemma_bit_width_is_least(max: nat)
    ensures
        max < pow2(bit_width_of(max)),
        bit_width_of(max) > 0 ==> pow2((bit_width_of(max) - 1) as nat) <= max,
    decreases max,
{
    lemma2_to64();
    if max > 0 {
        lemma_bit_width_is_least(max / 2);
        lemma_pow2_unfold(bit_width_of(max));
        if bit_width_of(max / 2) > 0 {
            lemma_pow2_unfold(bit_width_of(max / 2));
        }
    }
}

/// A width of at most 32 bits suffices for every `u32`.
pub proof fn lemma_bit_width_bound(max: nat, cap: nat)
    requires
        max < pow2(cap),
    ensures
        bit_width_of(max) <= cap,
    decreases max,
{
    lemma2_to64();
    if max > 0 {
        if cap == 0 {
            assert(false);
        } else {
            lemma_pow2_unfold(cap);
            lemma_bit_width_bound(max / 2, (cap - 1) as nat);
        }
    }
}

/// Bits per value for levels up to `max_int`.
pub fn bit_width(max_int: u32) -> (w: u32)
    ensures
        w == bit_width_of(max_int as nat),
        w <= 32,
{
    let mut rest: u32 = max_int;
    let mut w: u32 = 0;
    proof {
        lemma2_to64();
        lemma_bit_width_bound(max_int as nat, 32);
    }
    while rest > 0
        invariant
            w + bit_width_of(rest as nat) == bit_width_of(max_int as nat),
            bit_width_of(max_int as nat) <= 32,
        decreases rest,
    {
        rest = rest / 2;
        w = w + 1;
    }
    w
}

/// Bytes that hold `bits` bits.
pub open spec fn bytes_for_bits(bits: nat) -> nat {
    (bits + 7) / 8
}

/// Bytes taken by the value of a repeat run whose values have `bit_width`
/// bits.
pub fn byte_width(bit_width: u32) -> (w: u32)
    ensures
        w == bytes_for_bits(bit_width as nat),
{
    bit_width / 8 + (if bit_width % 8 == 0 { 0 } else { 1 })
}

/// Bits rounded up to whole bytes.
pub fn round_to_byte(bits: u32) -> (w: u32)
    ensures
        w == bytes_for_bits(bits as nat),
{
    byte_width(bits)
}

/// A variable-length unsigned integer, seven payload bits per byte, least
/// significant group first, the high bit of a byte saying that another byte
/// follows.  The result is the value and the position after its last byte,
/// or `None` where `data` ends before the integer does.
pub open spec fn leb128(data: Seq<u8>, pos: int) -> Option<(nat, int)>
    decreases data.len() - pos,
{
    if pos < 0 || pos >= data.len() {
        None
    } else if data[pos] < 128 {
        Some((data[pos] as nat, pos + 1))
    } else {
        match leb128(data, pos + 1) {
            None => None,
            Some((high, next)) => Some(((data[pos] % 128) as nat + 128 * high, next)),
        }
    }
}

/// What a variable-length integer is worth once the groups before `tail`
/// have added up to `acc` and the next group weighs `scale`.
pub open spec fn leb128_resume(acc: nat, scale: nat, tail: Option<(nat, int)>) -> Option<
    (nat, int),
> {
    match tail {
        None => None,
        Some((high, next)) => Some((acc + scale * high, next)),
    }
}

proof fn lemma_leb128_step(data: Seq<u8>, pos: int, acc: nat, scale: nat)
    requires
        0 <= pos < data.len(),
    ensures
        data[pos] >= 128 ==> leb128_resume(acc, scale, leb128(data, pos)) == leb128_resume(
            acc + (data[pos] % 128) as nat * scale,
            scale * 128,
            leb128(data, pos + 1),
        ),
        data[pos] < 128 ==> leb128_resume(acc, scale, leb128(data, pos)) == Some(
            (acc + (data[pos] % 128) as nat * scale, pos + 1),
        ),
{
    let low = (data[pos] % 128) as nat;
    if data[pos] >= 128 {
        match leb128(data, pos + 1) {
            None => {},
            Some((high, next)) => {
                assert(acc + scale * (low + 128 * high) == acc + low * scale + (scale * 128) * high)
                    by (nonlinear_arith);
            },
        }
    } else {
        assert(scale * low == low * scale) by (nonlinear_arith);
    }
}

/// Reads one variable-length unsigned integer at `*offset` and moves
/// `*offset` past it.  The integer has to end inside `data` and to fit 32
/// bits; otherwise `*offset` stays where it was.
pub fn read_leb128(data: &[u8], offset: &mut usize) -> (r: Result<u32, ReadError>)
    ensures
        match leb128(data@, *old(offset) as int) {
            None => r == Err::<u32, ReadError>(ReadError::TruncatedInput) && *final(offset) == *old(offset),
            Some((value, next)) => if value <= u32::MAX {
                r == Ok::<u32, ReadError>(value as u32) && *final(offset) == next
            } else {
                r == Err::<u32, ReadError>(ReadError::UnsupportedWidth) && *final(offset) == *old(offset)
            },
        },
{
    let start: usize = *offset;
    let mut pos: usize = start;
    let mut acc: u64 = 0;
    let mut scale: u64 = 1;
    let mut groups: u32 = 0;
    let mut wide: bool = false;
    let ghost mut full_acc: nat = 0;
    let ghost mut full_scale: nat = 1;
    while pos < data.len()
        invariant
            start <= pos,
            *offset == start,
            start == *old(offset),
            leb128(data@, start as int) == leb128_resume(
                full_acc,
                full_scale,
                leb128(data@, pos as int),
            ),
            groups <= 5,
            scale == (if groups == 0 {
                1u64
            } else if groups == 1 {
                0x80u64
            } else if groups == 2 {
                0x4000u64
            } else if groups == 3 {
                0x20_0000u64
            } else if groups == 4 {
                0x1000_0000u64
            } else {
                0x8_0000_0000u64
            }),
            acc < scale,
            groups < 5 ==> scale == full_scale,
            full_scale >= scale,
            !wide ==> full_acc == acc,
            wide ==> full_acc >= 0x8_0000_0000,
        decreases data.len() - pos,
    {
        let byte: u8 = data[pos];
        let low: u64 = (byte % 128) as u64;
        proof {
            lemma_leb128_step(data@, pos as int, full_acc, full_scale);
            assert(low == 0 ==> (low as nat) * full_scale == 0) by (nonlinear_arith);
            assert(low != 0 && full_scale >= 0x8_0000_0000 ==> (low as nat) * full_scale
                >= 0x8_0000_0000) by (nonlinear_arith);
            assert((low as nat) * full_scale >= 0) by (nonlinear_arith);
            assert(low * scale <= 127 * scale) by (nonlinear_arith)
                requires
                    low <= 127,
            ;
        }
        if groups < 5 {
            acc = acc + low * scale;
            scale = scale * 128;
            groups = groups + 1;
        } else if low != 0 {
            wide = true;
        }
        proof {
            full_acc = full_acc + (low as nat) * full_scale;
            full_scale = full_scale * 128;
        }
        pos = pos + 1;
        if byte < 128 {
            if wide || acc > 0xFFFF_FFFF {
                return Err(ReadError::UnsupportedWidth);
            }
            *offset = pos;
            return Ok(acc as u32);
        }
    }
    Err(ReadError::TruncatedInput)
}

/// The value of a repeat run: `bit_width` bits rounded up to whole bytes,
/// read at `pos` least significant byte first and zero-extended.  The bytes
/// have to lie inside `data`, and there may be at most four of them.
pub open spec fn repeat_value(data: Seq<u8>, pos: int, bit_width: nat) -> Result<nat, ReadError> {
    if pos < 0 || pos + bytes_for_bits(bit_width) > data.len() {
        Err(ReadError::TruncatedInput)
    } else if bytes_for_bits(bit_width) > 4 {
        Err(ReadError::UnsupportedWidth)
    } else {
        Ok(le_value(data, pos, bytes_for_bits(bit_width)))
    }
}

/// Reads the value of a repeat run at `*offset` and moves `*offset` past it.
/// On an error `*offset` stays where it was.
pub fn read_bitpack_int(bit_width: u32, data: &[u8], offset: &mut usize) -> (r: Result<u32, ReadError>)
    ensures
        match repeat_value(data@, *old(offset) as int, bit_width as nat) {
            Ok(value) => r == Ok::<u32, ReadError>(value as u32) && value <= u32::MAX && *final(offset)
                == *old(offset) + bytes_for_bits(bit_width as nat),
            Err(e) => r == Err::<u32, ReadError>(e) && *final(offset) == *old(offset),
        },
{
    let byte_len: usize = round_to_byte(bit_width) as usize;
    let pos: usize = *offset;
    if pos > data.len() || byte_len > data.len() - pos {
        return Err(ReadError::TruncatedInput);
    }
    if byte_len > 4 {
        return Err(ReadError::UnsupportedWidth);
    }
    proof {
        lemma_le_value_subrange(data@, pos as int, data@.len() as int, 0, byte_len as nat);
        lemma_le_value_bound(data@, pos as int, byte_len as nat);
        reveal_with_fuel(le_value, 2);
    }
    let value: u32 = if byte_len == 0 {
        0
    } else if byte_len == 1 {
        data[pos] as u32
    } else if byte_len == 2 {
        le_u16(slice_subrange(data, pos, data.len())) as u32
    } else if byte_len == 3 {
        le_u24(slice_subrange(data, pos, data.len()))
    } else {
        le_u32(slice_subrange(data, pos, data.len()))
    };
    *offset = pos + byte_len;
    Ok(value)
}

/// Bit `k` of a byte string, bit 0 being the least significant bit of the
/// first byte.
pub open spec fn bit_at(data: Seq<u8>, k: int) -> nat {
    (data[k / 8] as nat / pow2((k % 8) as nat)) % 2
}

/// The unsigned integer that `width` consecutive bits spell from bit `k` on,
/// least significant bit first, whatever byte boundaries they cross.
pub open spec fn packed_bits(data: Seq<u8>, k: int, width: nat) -> nat
    decreases width,
{
    if width == 0 {
        0
    } else {
        bit_at(data, k) + 2 * packed_bits(data, k + 1, (width - 1) as nat)
    }
}

/// `width` bits spell a value below `2^width`.
pub proof fn lemma_packed_bits_bound(data: Seq<u8>, k: int, width: nat)
    ensures
        packed_bits(data, k, width) < pow2(width),
    decreases width,
{
    lemma2_to64();
    if width > 0 {
        lemma_packed_bits_bound(data, k + 1, (width - 1) as nat);
        lemma_pow2_unfold(width);
    }
}

/// Value number `index` of a bit-packed payload that starts at byte `start`
/// and spends `bit_width` bits on each value.  The bits have to lie inside
/// `data`, and there may be at most 32 of them.
pub open spec fn packed_value(data: Seq<u8>, start: int, index: nat, bit_width: nat) -> Result<
    nat,
    ReadError,
> {
    if start < 0 || 8 * start + (index + 1) * bit_width > 8 * data.len() {
        Err(ReadError::TruncatedInput)
    } else if bit_width > 32 {
        Err(ReadError::UnsupportedWidth)
    } else {
        Ok(packed_bits(data, 8 * start + index * bit_width, bit_width))
    }
}

fn bit_of(byte: u8, shift: u8) -> (bit: u8)
    requires
        shift < 8,
    ensures
        bit as nat == (byte as nat / pow2(shift as nat)) % 2,
        bit <= 1,
{
    proof {
        lemma2_to64();
    }
    let weight: u8 = if shift == 0 {
        1
    } else if shift == 1 {
        2
    } else if shift == 2 {
        4
    } else if shift == 3 {
        8
    } else if shift == 4 {
        16
    } else if shift == 5 {
        32
    } else if shift == 6 {
        64
    } else {
        128
    };
    (byte / weight) % 2
}

/// Extracts value number `index` from a bit-packed payload that starts at
/// byte `start` of `data`.
pub fn read_packed(data: &[u8], start: usize, index: u64, bit_width: u32) -> (r: Result<u32, ReadError>)
    ensures
        match packed_value(data@, start as int, index as nat, bit_width as nat) {
            Ok(value) => r == Ok::<u32, ReadError>(value as u32) && value < pow2(bit_width as nat)
                && value <= u32::MAX,
            Err(e) => r == Err::<u32, ReadError>(e),
        },
{
    assert((index as u128) * (bit_width as u128) <= 0xFFFF_FFFF_FFFF_FFFF * 0xFFFF_FFFF)
        by (nonlinear_arith)
        requires
            index <= 0xFFFF_FFFF_FFFF_FFFF,
            bit_width <= 0xFFFF_FFFF,
    ;
    let first: u128 = 8 * (start as u128) + (index as u128) * (bit_width as u128);
    let end: u128 = first + bit_width as u128;
    assert(8 * start + (index + 1) * bit_width == end) by (nonlinear_arith)
        requires
            end == 8 * start + index * bit_width + bit_width,
    ;
    if end > 8 * (data.len() as u128) {
        return Err(ReadError::TruncatedInput);
    }
    if bit_width > 32 {
        return Err(ReadError::UnsupportedWidth);
    }
    let mut left: u32 = bit_width;
    let mut value: u64 = 0;
    proof {
        lemma2_to64();
    }
    while left > 0
        invariant
            left <= bit_width <= 32,
            end == first + bit_width,
            end <= 8 * data@.len(),
            value == packed_bits(data@, first + left, (bit_width - left) as nat),
            value < pow2((bit_width - left) as nat),
        decreases left,
    {
        left = left - 1;
        let k: u128 = first + left as u128;
        assert(k / 8 < data@.len());
        let bit: u8 = bit_of(data[(k / 8) as usize], (k % 8) as u8);
        proof {
            lemma_pow2_unfold((bit_width - left) as nat);
            lemma_pow2_strictly_increases((bit_width - left) as nat, 33);
            lemma2_to64_rest();
        }
        value = 2 * value + bit as u64;
    }
    proof {
        lemma_pow2_strictly_increases(bit_width as nat, 33);
        lemma2_to64_rest();
    }
    Ok(value as u32)
}

/// A variable-length integer ends after where it starts and inside the data.
pub proof fn lemma_leb128_advances(data: Seq<u8>, pos: int)
    ensures
        match leb128(data, pos) {
            None => true,
            Some((_, next)) => 0 <= pos < next <= data.len(),
        },
    decreases data.len() - pos,
{
    if 0 <= pos < data.len() && data[pos] >= 128 {
        lemma_leb128_advances(data, pos + 1);
    }
}

/// One unit of the hybrid encoding, as found in a byte string.
#[derive(Debug, Clone, Copy, PartialEq, Eq, Structural)]
pub enum LevelRun {
    /// `count` copies of `value`.
    Repeat { count: u64, value: u32 },
    /// `count` values of `bit_width` bits each, tightly packed from byte
    /// `payload` of the byte string on.
    Packed { count: u64, bit_width: u32, payload: usize },
}

impl LevelRun {
    /// How many values the run stands for.
    pub open spec fn len(self) -> nat {
        match self {
            LevelRun::Repeat { count, .. } => count as nat,
            LevelRun::Packed { count, .. } => count as nat,
        }
    }

    /// Value number `i` of the run, `data` being the byte string that holds
    /// the run.
    pub open spec fn value_at(self, data: Seq<u8>, i: int) -> u32 {
        match self {
            LevelRun::Repeat { value, .. } => value,
            LevelRun::Packed { bit_width, payload, .. } => packed_bits(
                data,
                8 * payload + i * bit_width,
                bit_width as nat,
            ) as u32,
        }
    }

    /// All values of the run in order.
    pub open spec fn values(self, data: Seq<u8>) -> Seq<u32> {
        Seq::new(self.len(), |i: int| self.value_at(data, i))
    }

    /// A packed run lies inside `data` and its values fit 32 bits.
    pub open spec fn fits(self, data: Seq<u8>) -> bool {
        match self {
            LevelRun::Repeat { .. } => true,
            LevelRun::Packed { count, bit_width, payload } => bit_width <= 32 && 8 * payload + count
                * bit_width <= 8 * data.len(),
        }
    }

    /// How many values the run stands for.
    pub fn count(&self) -> (n: u64)
        ensures
            n == self.len(),
    {
        match self {
            LevelRun::Repeat { count, .. } => *count,
            LevelRun::Packed { count, .. } => *count,
        }
    }
}

/// What a run is worth: its values in order, and the position after its
/// last byte.
pub struct RunSpec {
    pub values: Seq<u32>,
    pub next: int,
}

/// The run that starts at `pos`.  Its header is a variable-length integer
/// `h`.  An odd `h` announces `h / 2` groups of eight bit-packed values,
/// `bit_width` bytes a group; an even `h` announces one value, repeated
/// `h / 2` times.
pub open spec fn run_at(data: Seq<u8>, pos: int, bit_width: nat) -> Result<RunSpec, ReadError> {
    match leb128(data, pos) {
        None => Err(ReadError::TruncatedInput),
        Some((header, body)) => if header > u32::MAX {
            Err(ReadError::UnsupportedWidth)
        } else if header % 2 == 1 {
            let groups = header / 2;
            if body + groups * bit_width > data.len() {
                Err(ReadError::TruncatedInput)
            } else if bit_width > 32 {
                Err(ReadError::UnsupportedWidth)
            } else {
                Ok(
                    RunSpec {
                        values: Seq::new(
                            8 * groups,
                            |i: int| packed_bits(data, 8 * body + i * bit_width, bit_width) as u32,
                        ),
                        next: body + groups * bit_width,
                    },
                )
            }
        } else {
            match repeat_value(data, body, bit_width) {
                Err(e) => Err(e),
                Ok(value) => Ok(
                    RunSpec {
                        values: Seq::new(header / 2, |i: int| value as u32),
                        next: body + bytes_for_bits(bit_width),
                    },
                ),
            }
        },
    }
}

/// Reads the run that starts at byte `pos` of `data`: its header and, for a
/// repeat run, its value.  Returns the run and the position after it.
pub fn read_run(data: &[u8], pos: usize, bit_width: u32) -> (r: Result<(LevelRun, usize), ReadError>)
    ensures
        match run_at(data@, pos as int, bit_width as nat) {
            Ok(run) => r is Ok && r->Ok_0.0.values(data@) == run.values && r->Ok_0.1 == run.next
                && r->Ok_0.0.fits(data@) && pos < r->Ok_0.1 <= data@.len(),
            Err(e) => r == Err::<(LevelRun, usize), ReadError>(e),
        },
{
    let mut at: usize = pos;
    proof {
        lemma_leb128_advances(data@, pos as int);
    }
    let header: u32 = match read_leb128(data, &mut at) {
        Ok(h) => h,
        Err(e) => {
            return Err(e);
        },
    };
    if header % 2 == 1 {
        let groups: u64 = (header / 2) as u64;
        assert(groups * (bit_width as u64) <= 0x7FFF_FFFF * 0xFFFF_FFFF) by (nonlinear_arith)
            requires
                groups <= 0x7FFF_FFFF,
                bit_width <= 0xFFFF_FFFF,
        ;
        let bytes: u64 = groups * (bit_width as u64);
        if bytes > (data.len() - at) as u64 {
            return Err(ReadError::TruncatedInput);
        }
        if bit_width > 32 {
            return Err(ReadError::UnsupportedWidth);
        }
        let run = LevelRun::Packed { count: 8 * groups, bit_width, payload: at };
        assert(8 * at + (8 * groups) * bit_width == 8 * (at + groups * bit_width))
            by (nonlinear_arith);
        assert(run.values(data@) =~= run_at(data@, pos as int, bit_width as nat)->Ok_0.values);
        Ok((run, at + bytes as usize))
    } else {
        let value: u32 = match read_bitpack_int(bit_width, data, &mut at) {
            Ok(v) => v,
            Err(e) => {
                return Err(e);
            },
        };
        let run = LevelRun::Repeat { count: (header / 2) as u64, value };
        assert(run.values(data@) =~= run_at(data@, pos as int, bit_width as nat)->Ok_0.values);
        Ok((run, at))
    }
}

/// A run ends after where it starts and inside the data.
pub proof fn lemma_run_advances(data: Seq<u8>, pos: int, bit_width: nat)
    ensures
        match run_at(data, pos, bit_width) {
            Ok(run) => 0 <= pos < run.next <= data.len(),
            Err(_) => true,
        },
{
    lemma_leb128_advances(data, pos);
    match leb128(data, pos) {
        None => {},
        Some((header, body)) => {
            assert(0 <= (header / 2) * bit_width) by (nonlinear_arith);
        },
    }
}

/// Every level of a bit-packed run is representable in `bit_width` bits.
pub proof fn lemma_packed_run_levels_fit(data: Seq<u8>, pos: int, bit_width: nat)
    requires
        run_at(data, pos, bit_width) is Ok,
        leb128(data, pos)->Some_0.0 % 2 == 1,
    ensures
        forall|i: int|
            0 <= i < run_at(data, pos, bit_width)->Ok_0.values.len() ==> (#[trigger] run_at(
                data,
                pos,
                bit_width,
            )->Ok_0.values[i]) < pow2(bit_width),
{
    let body = leb128(data, pos)->Some_0.1;
    let values = run_at(data, pos, bit_width)->Ok_0.values;
    assert forall|i: int| 0 <= i < values.len() implies (#[trigger] values[i]) < pow2(
        bit_width,
    ) by {
        lemma_packed_bits_bound(data, 8 * body + i * bit_width, bit_width);
    }
}

/// What decoding a run region gives: the levels in order, the error that
/// ended it if one did, and the position at which it stopped.
pub struct Decoded {
    pub levels: Seq<u32>,
    pub error: Option<ReadError>,
    pub end: int,
}

/// Decodes the runs of `data` from `pos` on, one after the other, until
/// `limit` levels have come out, the data is used up, or a run is in error.
/// A run that holds more than the limit still allows is cut short: what it
/// holds beyond the limit is dropped.
pub open spec fn decode_stream(data: Seq<u8>, pos: int, bit_width: nat, limit: nat) -> Decoded
    decreases data.len() - pos,
    via decode_stream_decreases
{
    if limit == 0 || pos < 0 || pos >= data.len() {
        Decoded { levels: Seq::empty(), error: None, end: pos }
    } else {
        match run_at(data, pos, bit_width) {
            Err(e) => Decoded { levels: Seq::empty(), error: Some(e), end: pos },
            Ok(run) => {
                let taken = if run.values.len() <= limit {
                    run.values.len()
                } else {
                    limit
                };
                let rest = decode_stream(data, run.next, bit_width, (limit - taken) as nat);
                Decoded {
                    levels: run.values.take(taken as int) + rest.levels,
                    error: rest.error,
                    end: rest.end,
                }
            },
        }
    }
}

#[via_fn]
proof fn decode_stream_decreases(data: Seq<u8>, pos: int, bit_width: nat, limit: nat) {
    lemma_run_advances(data, pos, bit_width);
}

/// Decoding hands out at most `limit` levels, stops inside the data, and
/// reports an error only while levels are still owed.
pub proof fn lemma_decode_stream_bounds(data: Seq<u8>, pos: int, bit_width: nat, limit: nat)
    requires
        0 <= pos <= data.len(),
    ensures
        decode_stream(data, pos, bit_width, limit).levels.len() <= limit,
        pos <= decode_stream(data, pos, bit_width, limit).end <= data.len(),
        decode_stream(data, pos, bit_width, limit).error is Some ==> decode_stream(
            data,
            pos,
            bit_width,
            limit,
        ).levels.len() < limit,
    decreases data.len() - pos,
{
    if !(limit == 0 || pos >= data.len()) {
        lemma_run_advances(data, pos, bit_width);
        match run_at(data, pos, bit_width) {
            Err(_) => {},
            Ok(run) => {
                let taken = if run.values.len() <= limit {
                    run.values.len()
                } else {
                    limit
                };
                lemma_decode_stream_bounds(data, run.next, bit_width, (limit - taken) as nat);
            },
        }
    }
}

/// A lazy decoder over one run region.  It reads a run only when a level of
/// that run is asked for, and never hands out more levels than its limit.
pub struct RleIter<'a> {
    ptr: usize,
    counter: u64,
    run: LevelRun,
    data: &'a [u8],
    bit_width: u32,
    byte_width: u32,
    budget: u64,
    failed: Option<ReadError>,
}

impl<'a> RleIter<'a> {
    #[verifier::type_invariant]
    spec fn inv(self) -> bool {
        &&& self.ptr <= self.data@.len()
        &&& self.counter <= self.run.len()
        &&& self.run.fits(self.data@)
        &&& self.byte_width == bytes_for_bits(self.bit_width as nat)
    }

    /// Everything that is still to come: the levels that `next` will hand
    /// out, the error that follows them if one does, and the position in
    /// the region at which decoding will then have stopped.
    pub closed spec fn remaining(self) -> Decoded {
        match self.failed {
            Some(e) => Decoded { levels: Seq::empty(), error: Some(e), end: self.ptr as int },
            None => {
                let n = if self.counter <= self.budget {
                    self.counter
                } else {
                    self.budget
                };
                let from = self.run.len() - self.counter;
                let rest = decode_stream(
                    self.data@,
                    self.ptr as int,
                    self.bit_width as nat,
                    (self.budget - n) as nat,
                );
                Decoded {
                    levels: self.run.values(self.data@).subrange(from, from + n) + rest.levels,
                    error: rest.error,
                    end: rest.end,
                }
            },
        }
    }

    /// How far into the region the decoder has read.
    pub closed spec fn cursor(self) -> int {
        self.ptr as int
    }

    /// A decoder at the start of the run region `data`, for levels of
    /// `bit_width` bits, that hands out at most `limit` levels.
    pub fn new(data: &'a [u8], bit_width: u32, limit: u64) -> (it: RleIter<'a>)
        ensures
            it.remaining() == decode_stream(data@, 0, bit_width as nat, limit as nat),
            it.cursor() == 0,
    {
        let it = RleIter {
            ptr: 0,
            counter: 0,
            run: LevelRun::Repeat { count: 0, value: 0 },
            data,
            bit_width,
            byte_width: byte_width(bit_width),
            budget: limit,
            failed: None,
        };
        assert(it.remaining().levels =~= decode_stream(
            data@,
            0,
            bit_width as nat,
            limit as nat,
        ).levels);
        it
    }

    /// How far into the region the decoder has read.
    pub fn position(&self) -> (at: usize)
        ensures
            at == self.cursor(),
    {
        self.ptr
    }

    /// Reads the run at the cursor and makes it the current one, or records
    /// the error that reading it gave.
    fn read_next(&mut self)
        requires
            old(self).failed is None,
            old(self).counter == 0,
            old(self).budget > 0,
            old(self).ptr < old(self).data@.len(),
        ensures
            final(self).remaining() == old(self).remaining(),
            final(self).failed is None ==> final(self).ptr > old(self).ptr,
            final(self).data == old(self).data,
            final(self).budget == old(self).budget,
    {
        proof {
            use_type_invariant(&*self);
        }
        let ghost before = *self;
        match read_run(self.data, self.ptr, self.bit_width) {
            Err(e) => {
                self.failed = Some(e);
                assert(self.remaining().levels =~= before.remaining().levels);
            },
            Ok((run, next)) => {
                self.run = run;
                self.counter = run.count();
                self.ptr = next;
                assert(self.remaining().levels =~= before.remaining().levels);
            },
        }
    }

    /// Handing out one level of the current run leaves the rest of what
    /// was to come.
    proof fn lemma_take_one(before: Self, after: Self)
        requires
            before.inv(),
            before.failed is None,
            before.counter > 0,
            before.budget > 0,
            after == (RleIter {
                counter: (before.counter - 1) as u64,
                budget: (before.budget - 1) as u64,
                ..before
            }),
        ensures
            before.remaining().levels.len() > 0,
            before.remaining().levels[0] == before.run.value_at(
                before.data@,
                before.run.len() - before.counter,
            ),
            after.remaining().levels == before.remaining().levels.drop_first(),
            after.remaining().error == before.remaining().error,
            after.remaining().end == before.remaining().end,
    {
        let n = if before.counter <= before.budget {
            before.counter
        } else {
            before.budget
        };
        let from = before.run.len() - before.counter;
        let values = before.run.values(before.data@);
        let rest = decode_stream(
            before.data@,
            before.ptr as int,
            before.bit_width as nat,
            (before.budget - n) as nat,
        );
        let head = values.subrange(from, from + n);
        let tail = values.subrange(from + 1, from + n);
        assert(before.remaining().levels == head + rest.levels);
        assert(after.remaining().levels == tail + rest.levels);
        assert(head.len() == n);
        assert(head[0] == values[from]);
        assert((head + rest.levels)[0] == head[0]);
        assert(tail + rest.levels =~= (head + rest.levels).drop_first());
    }

    /// Hands out the next level of the current run.
    fn take_one(&mut self) -> (level: u32)
        requires
            old(self).failed is None,
            old(self).counter > 0,
            old(self).budget > 0,
        ensures
            old(self).remaining().levels.len() > 0,
            level == old(self).remaining().levels[0],
            final(self).remaining().levels == old(self).remaining().levels.drop_first(),
            final(self).remaining().error == old(self).remaining().error,
            final(self).remaining().end == old(self).remaining().end,
    {
        proof {
            use_type_invariant(&*self);
        }
        let ghost before = *self;
        let index: u64 = self.run.count() - self.counter;
        let level: u32 = match self.run {
            LevelRun::Repeat { value, .. } => value,
            LevelRun::Packed { bit_width, payload, .. } => {
                assert(8 * payload + (index + 1) * bit_width <= 8 * self.data@.len())
                    by (nonlinear_arith)
                    requires
                        8 * payload + self.run.len() * bit_width <= 8 * self.data@.len(),
                        index + 1 <= self.run.len(),
                ;
                match read_packed(self.data, payload, index, bit_width) {
                    Ok(v) => v,
                    Err(_) => 0,
                }
            },
        };
        self.counter = self.counter - 1;
        self.budget = self.budget - 1;
        proof {
            Self::lemma_take_one(before, *self);
        }
        level
    }

    /// The next level.  `Ok(None)` says that the limit is reached or the
    /// region is used up, and is then the answer to every later call;
    /// likewise an error, once reported, is reported again.
    pub fn next(&mut self) -> (r: Result<Option<u32>, ReadError>)
        ensures
            match r {
                Ok(Some(level)) => {
                    &&& old(self).remaining().levels.len() > 0
                    &&& level == old(self).remaining().levels[0]
                    &&& final(self).remaining().levels == old(self).remaining().levels.drop_first()
                    &&& final(self).remaining().error == old(self).remaining().error
                    &&& final(self).remaining().end == old(self).remaining().end
                },
                Ok(None) => {
                    &&& old(self).remaining().levels.len() == 0
                    &&& old(self).remaining().error is None
                    &&& final(self).remaining() == old(self).remaining()
                    &&& final(self).cursor() == old(self).remaining().end
                },
                Err(e) => {
                    &&& old(self).remaining().levels.len() == 0
                    &&& old(self).remaining().error == Some(e)
                    &&& final(self).remaining() == old(self).remaining()
                },
            },
    {
        proof {
            use_type_invariant(&*self);
        }
        loop
            invariant
                self.remaining() == old(self).remaining(),
            decreases
                    (if self.failed is Some {
                        0int
                    } else {
                        1 + self.data@.len() - self.ptr
                    }),
        {
            proof {
                use_type_invariant(&*self);
            }
            match self.failed {
                Some(e) => {
                    return Err(e);
                },
                None => {},
            }
            if self.budget == 0 {
                return Ok(None);
            }
            if self.counter > 0 {
                let level: u32 = self.take_one();
                return Ok(Some(level));
            }
            if self.ptr >= self.data.len() {
                return Ok(None);
            }
            self.read_next();
            proof {
                use_type_invariant(&*self);
            }
        }
    }
}

/// The run region of a level block: `data` opens with four bytes that
/// spell, least significant first, the length of the region that follows
/// them.  `None` where `data` is shorter than the prefix or than the length
/// it declares.
pub open spec fn encoded_region(data: Seq<u8>) -> Option<Seq<u8>> {
    if data.len() < 4 || 4 + le_value(data, 0, 4) > data.len() {
        None
    } else {
        Some(data.subrange(4, 4 + le_value(data, 0, 4) as int))
    }
}

/// Bytes that follow the declared region do not change the region.
pub proof fn lemma_region_ignores_trailing_bytes(data: Seq<u8>, extra: Seq<u8>)
    requires
        encoded_region(data) is Some,
    ensures
        encoded_region(data + extra) == encoded_region(data),
{
    let longer = data + extra;
    assert(longer.subrange(0, data.len() as int) =~= data);
    lemma_le_value_subrange(longer, 0, data.len() as int, 0, 4);
    assert(le_value(longer, 0, 4) == le_value(data, 0, 4));
    let len = le_value(data, 0, 4) as int;
    assert(longer.subrange(4, 4 + len) =~= data.subrange(4, 4 + len));
}

/// Reads the length prefix of a level block and returns the run region
/// that it declares.
pub fn level_region<'a>(data: &'a [u8]) -> (r: Result<&'a [u8], ReadError>)
    ensures
        match encoded_region(data@) {
            Some(region) => r is Ok && r->Ok_0@ == region && 4 + region.len() <= usize::MAX,
            None => r == Err::<&[u8], ReadError>(ReadError::TruncatedInput),
        },
{
    if data.len() < 4 {
        return Err(ReadError::TruncatedInput);
    }
    let declared: u32 = le_u32(data);
    if declared as u64 > (data.len() - 4) as u64 {
        return Err(ReadError::TruncatedInput);
    }
    Ok(slice_subrange(data, 4, 4 + declared as usize))
}

/// A level block whose prefix has been read: the run region and the width
/// of its levels.
#[derive(Debug)]
pub struct BitPackingRleReader<'a> {
    bit_width: u32,
    byte_width: u32,
    compressed_len: u32,
    data: &'a [u8],
}

impl<'a> BitPackingRleReader<'a> {
    #[verifier::type_invariant]
    spec fn inv(self) -> bool {
        &&& self.compressed_len == self.data@.len()
        &&& self.byte_width == bytes_for_bits(self.bit_width as nat)
    }

    /// The run region of the block.
    pub closed spec fn region(self) -> Seq<u8> {
        self.data@
    }

    /// Bits per level.
    pub closed spec fn width(self) -> nat {
        self.bit_width as nat
    }

    /// Reads the prefix of a level block whose levels go up to `max_level`.
    pub fn new(max_level: u32, data: &'a [u8]) -> (r: Result<BitPackingRleReader<'a>, ReadError>)
        ensures
            match encoded_region(data@) {
                Some(region) => r is Ok && r->Ok_0.region() == region && r->Ok_0.width()
                    == bit_width_of(max_level as nat),
                None => r is Err && r->Err_0 == ReadError::TruncatedInput,
            },
    {
        let region: &[u8] = match level_region(data) {
            Ok(region) => region,
            Err(e) => {
                return Err(e);
            },
        };
        let bit_width: u32 = bit_width(max_level);
        let byte_width: u32 = byte_width(bit_width);
        proof {
            lemma_le_value_bound(data@, 0, 4);
        }
        Ok(
            BitPackingRleReader {
                bit_width,
                byte_width,
                compressed_len: region.len() as u32,
                data: region,
            },
        )
    }

    /// Length of the run region in bytes.
    pub fn encoded_len(&self) -> (n: u32)
        ensures
            n == self.region().len(),
    {
        proof {
            use_type_invariant(self);
        }
        self.compressed_len
    }

    /// A decoder over the run region that hands out at most `limit` levels.
    pub fn into_iter(self, limit: u64) -> (it: RleIter<'a>)
        ensures
            it.remaining() == decode_stream(self.region(), 0, self.width(), limit as nat),
            it.cursor() == 0,
    {
        RleIter::new(self.data, self.bit_width, limit)
    }
}

/// A length-prefixed block of tightly packed values, read by index.
pub struct BitPackingReader<'a> {
    compressed_len: u32,
    data: &'a [u8],
}

impl<'a> BitPackingReader<'a> {
    #[verifier::type_invariant]
    spec fn inv(self) -> bool {
        self.compressed_len == self.data@.len()
    }

    /// The packed bytes of the block.
    pub closed spec fn region(self) -> Seq<u8> {
        self.data@
    }

    /// Reads the prefix of a packed block.
    pub fn new(data: &'a [u8]) -> (r: Result<BitPackingReader<'a>, ReadError>)
        ensures
            match encoded_region(data@) {
                Some(region) => r is Ok && r->Ok_0.region() == region,
                None => r is Err && r->Err_0 == ReadError::TruncatedInput,
            },
    {
        let region: &[u8] = match level_region(data) {
            Ok(region) => region,
            Err(e) => {
                return Err(e);
            },
        };
        proof {
            lemma_le_value_bound(data@, 0, 4);
        }
        Ok(BitPackingReader { compressed_len: region.len() as u32, data: region })
    }

    /// Value number `index` of the block, each value taking `bit_width`
    /// bits.
    pub fn get(&self, index: u64, bit_width: u32) -> (r: Result<u32, ReadError>)
        ensures
            match packed_value(self.region(), 0, index as nat, bit_width as nat) {
                Ok(value) => r == Ok::<u32, ReadError>(value as u32) && value < pow2(bit_width as nat),
                Err(e) => r == Err::<u32, ReadError>(e),
            },
    {
        read_packed(self.data, 0, index, bit_width)
    }
}

} // verus!
