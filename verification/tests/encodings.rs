use parquet_reader::encodings::bit_width;
use parquet_reader::encodings::byte_width;
use parquet_reader::encodings::read_bitpack_int;
use parquet_reader::encodings::read_leb128;
use parquet_reader::encodings::read_packed;
use parquet_reader::encodings::read_run;
use parquet_reader::encodings::round_to_byte;
use parquet_reader::encodings::BitPackingReader;
use parquet_reader::encodings::BitPackingRleReader;
use parquet_reader::encodings::LevelRun;
use parquet_reader::encodings::RleIter;
use parquet_reader::error::ReadError;
use parquet_reader::levels::decode_levels;

fn drain(it: &mut RleIter) -> Result<Vec<u32>, ReadError> {
    let mut out = Vec::new();
    loop {
        match it.next()? {
            Some(v) => out.push(v),
            None => return Ok(out),
        }
    }
}

#[test]
fn bit_width_test() {
    assert_eq!(1, bit_width(1));
    assert_eq!(4, bit_width(9));
}

#[test]
fn bit_width_edges() {
    assert_eq!(0, bit_width(0));
    assert_eq!(2, bit_width(2));
    assert_eq!(2, bit_width(3));
    assert_eq!(3, bit_width(4));
    assert_eq!(8, bit_width(255));
    assert_eq!(9, bit_width(256));
    assert_eq!(32, bit_width(u32::MAX));
}

#[test]
fn byte_width_rounds_up() {
    assert_eq!(0, byte_width(0));
    assert_eq!(1, byte_width(1));
    assert_eq!(1, byte_width(8));
    assert_eq!(2, byte_width(9));
    assert_eq!(4, byte_width(32));
    assert_eq!(5, byte_width(33));
    assert_eq!(536870912, byte_width(u32::MAX));
    assert_eq!(3, round_to_byte(17));
}

#[test]
fn leb128_single_and_multi_byte() {
    let data = [0x0Au8, 0xE5, 0x8E, 0x26, 0x7F];
    let mut at = 0usize;
    assert_eq!(read_leb128(&data, &mut at), Ok(10));
    assert_eq!(at, 1);
    assert_eq!(read_leb128(&data, &mut at), Ok(624485));
    assert_eq!(at, 4);
    assert_eq!(read_leb128(&data, &mut at), Ok(127));
    assert_eq!(at, 5);
    assert_eq!(read_leb128(&data, &mut at), Err(ReadError::TruncatedInput));
    assert_eq!(at, 5);
}

#[test]
fn leb128_unterminated_is_truncated() {
    let data = [0x80u8, 0x80, 0x80];
    let mut at = 0usize;
    assert_eq!(read_leb128(&data, &mut at), Err(ReadError::TruncatedInput));
    assert_eq!(at, 0);
}

#[test]
fn leb128_limits() {
    let max = [0xFFu8, 0xFF, 0xFF, 0xFF, 0x0F];
    let mut at = 0usize;
    assert_eq!(read_leb128(&max, &mut at), Ok(u32::MAX));
    assert_eq!(at, 5);
    let over = [0xFFu8, 0xFF, 0xFF, 0xFF, 0x1F];
    at = 0;
    assert_eq!(read_leb128(&over, &mut at), Err(ReadError::UnsupportedWidth));
    assert_eq!(at, 0);
    let padded = [0x81u8, 0x80, 0x80, 0x80, 0x80, 0x80, 0x00];
    at = 0;
    assert_eq!(read_leb128(&padded, &mut at), Ok(1));
    assert_eq!(at, 7);
    let long = [0x80u8, 0x80, 0x80, 0x80, 0x80, 0x01];
    at = 0;
    assert_eq!(read_leb128(&long, &mut at), Err(ReadError::UnsupportedWidth));
}

#[test]
fn repeat_value_widths() {
    let data = [0x01u8, 0x02, 0x03, 0x04, 0x05];
    let mut at = 0usize;
    assert_eq!(read_bitpack_int(0, &data, &mut at), Ok(0));
    assert_eq!(at, 0);
    assert_eq!(read_bitpack_int(8, &data, &mut at), Ok(1));
    assert_eq!(at, 1);
    at = 0;
    assert_eq!(read_bitpack_int(9, &data, &mut at), Ok(0x0201));
    assert_eq!(at, 2);
    at = 0;
    assert_eq!(read_bitpack_int(24, &data, &mut at), Ok(0x030201));
    assert_eq!(at, 3);
    at = 1;
    assert_eq!(read_bitpack_int(32, &data, &mut at), Ok(0x05040302));
    assert_eq!(at, 5);
}

#[test]
fn repeat_value_is_zero_extended() {
    let data = [0xFFu8, 0xFF, 0xFF, 0xFF];
    let mut at = 0usize;
    assert_eq!(read_bitpack_int(16, &data, &mut at), Ok(0xFFFF));
    at = 0;
    assert_eq!(read_bitpack_int(20, &data, &mut at), Ok(0xFF_FFFF));
    at = 0;
    assert_eq!(read_bitpack_int(32, &data, &mut at), Ok(0xFFFF_FFFF));
}

#[test]
fn repeat_value_errors() {
    let data = [0x01u8, 0x02, 0x03, 0x04, 0x05, 0x06];
    let mut at = 4usize;
    assert_eq!(read_bitpack_int(17, &data, &mut at), Err(ReadError::TruncatedInput));
    assert_eq!(at, 4);
    at = 0;
    assert_eq!(read_bitpack_int(33, &data, &mut at), Err(ReadError::UnsupportedWidth));
    assert_eq!(at, 0);
    at = 3;
    assert_eq!(read_bitpack_int(33, &data, &mut at), Err(ReadError::TruncatedInput));
    at = 9;
    assert_eq!(read_bitpack_int(1, &data, &mut at), Err(ReadError::TruncatedInput));
}

#[test]
fn packed_values_cross_byte_boundaries() {
    // the values 0..=7 at three bits each, least significant bit first
    let data = [0x88u8, 0xC6, 0xFA];
    for i in 0..8u64 {
        assert_eq!(read_packed(&data, 0, i, 3), Ok(i as u32));
    }
    assert_eq!(read_packed(&data, 0, 8, 3), Err(ReadError::TruncatedInput));
    assert_eq!(read_packed(&data, 1, 0, 8), Ok(0xC6));
    assert_eq!(read_packed(&data, 0, 0, 24), Ok(0xFAC688));
    assert_eq!(read_packed(&data, 0, 1, 12), Ok(0xFAC));
    assert_eq!(read_packed(&data, 0, 5, 0), Ok(0));
    assert_eq!(read_packed(&data, 3, 0, 0), Ok(0));
    assert_eq!(read_packed(&data, 4, 0, 0), Err(ReadError::TruncatedInput));
}

#[test]
fn packed_value_width_limit() {
    let data = [0xFFu8; 8];
    assert_eq!(read_packed(&data, 0, 0, 32), Ok(u32::MAX));
    assert_eq!(read_packed(&data, 0, 0, 33), Err(ReadError::UnsupportedWidth));
    assert_eq!(read_packed(&data, 0, 1, 33), Err(ReadError::TruncatedInput));
}

#[test]
fn read_run_repeat() {
    let data = [0x0Au8, 0x03];
    assert_eq!(read_run(&data, 0, 2), Ok((LevelRun::Repeat { count: 5, value: 3 }, 2)));
    assert_eq!(read_run(&data, 1, 2), Err(ReadError::TruncatedInput));
    assert_eq!(read_run(&data, 2, 2), Err(ReadError::TruncatedInput));
}

#[test]
fn read_run_packed() {
    let data = [0x03u8, 0x88, 0xC6, 0xFA];
    assert_eq!(
        read_run(&data, 0, 3),
        Ok((LevelRun::Packed { count: 8, bit_width: 3, payload: 1 }, 4))
    );
    assert_eq!(read_run(&data, 0, 4), Err(ReadError::TruncatedInput));
    let two = [0x05u8, 1, 2, 3, 4, 5, 6];
    assert_eq!(
        read_run(&two, 0, 3),
        Ok((LevelRun::Packed { count: 16, bit_width: 3, payload: 1 }, 7))
    );
    assert_eq!(read_run(&[0x03u8], 0, 0), Ok((LevelRun::Packed { count: 8, bit_width: 0, payload: 1 }, 1)));
}

#[test]
fn read_run_unsupported_width() {
    let data = [0x02u8, 1, 2, 3, 4, 5];
    assert_eq!(read_run(&data, 0, 33), Err(ReadError::UnsupportedWidth));
    let packed = [0x03u8; 64];
    assert_eq!(read_run(&packed, 0, 33), Err(ReadError::UnsupportedWidth));
    assert_eq!(read_run(&packed, 0, 64), Err(ReadError::TruncatedInput));
}

#[test]
fn rle_run_repeats_value() {
    // repeat = 5, bit width 2, value 3
    let region = [0x0Au8, 0x03];
    let mut it = RleIter::new(&region, 2, 100);
    assert_eq!(drain(&mut it), Ok(vec![3, 3, 3, 3, 3]));
    assert_eq!(it.position(), 2);
    assert_eq!(it.next(), Ok(None));
    assert_eq!(it.next(), Ok(None));
}

#[test]
fn packed_run_round_trips() {
    let region = [0x03u8, 0x88, 0xC6, 0xFA];
    let mut it = RleIter::new(&region, 3, 100);
    assert_eq!(drain(&mut it), Ok(vec![0, 1, 2, 3, 4, 5, 6, 7]));
    assert_eq!(it.position(), 4);
}

#[test]
fn mixed_runs_in_order() {
    let region = [0x04u8, 0x01, 0x03, 0x88, 0xC6, 0xFA, 0x06, 0x07];
    let mut it = RleIter::new(&region, 3, 100);
    assert_eq!(drain(&mut it), Ok(vec![1, 1, 0, 1, 2, 3, 4, 5, 6, 7, 7, 7, 7]));
    assert_eq!(it.position(), 8);
}

#[test]
fn limit_cuts_a_run_short() {
    let region = [0x03u8, 0x88, 0xC6, 0xFA, 0x06, 0x07];
    let mut it = RleIter::new(&region, 3, 5);
    assert_eq!(drain(&mut it), Ok(vec![0, 1, 2, 3, 4]));
    assert_eq!(it.position(), 4);
    assert_eq!(it.next(), Ok(None));
    let mut none = RleIter::new(&region, 3, 0);
    assert_eq!(none.next(), Ok(None));
    assert_eq!(none.position(), 0);
}

#[test]
fn error_follows_the_good_levels() {
    let region = [0x04u8, 0x01, 0x03, 0x88];
    let mut it = RleIter::new(&region, 3, 100);
    assert_eq!(it.next(), Ok(Some(1)));
    assert_eq!(it.next(), Ok(Some(1)));
    assert_eq!(it.next(), Err(ReadError::TruncatedInput));
    assert_eq!(it.next(), Err(ReadError::TruncatedInput));
    assert_eq!(it.position(), 2);
}

#[test]
fn empty_runs_are_skipped() {
    let region = [0x00u8, 0x09, 0x01, 0x02, 0x04];
    let mut it = RleIter::new(&region, 8, 100);
    assert_eq!(drain(&mut it), Ok(vec![4]));
    assert_eq!(it.position(), 5);
}

#[test]
fn zero_width_levels() {
    let region = [0x06u8, 0x03];
    let mut it = RleIter::new(&region, 0, 100);
    assert_eq!(drain(&mut it), Ok(vec![0; 11]));
}

#[test]
fn reader_reads_prefix() {
    let block = [0x02u8, 0, 0, 0, 0x0A, 0x03, 0xEE, 0xEE];
    let reader = BitPackingRleReader::new(3, &block).unwrap();
    assert_eq!(reader.encoded_len(), 2);
    let mut it = reader.into_iter(100);
    assert_eq!(drain(&mut it), Ok(vec![3, 3, 3, 3, 3]));
}

#[test]
fn reader_rejects_short_blocks() {
    assert_eq!(BitPackingRleReader::new(3, &[1u8, 0, 0]).err(), Some(ReadError::TruncatedInput));
    assert_eq!(BitPackingRleReader::new(3, &[3u8, 0, 0, 0, 1, 2]).err(), Some(ReadError::TruncatedInput));
    assert!(BitPackingRleReader::new(3, &[2u8, 0, 0, 0, 1, 2]).is_ok());
    assert!(BitPackingRleReader::new(3, &[0u8, 0, 0, 0]).is_ok());
    assert!(BitPackingReader::new(&[0u8, 0, 0]).is_err());
    assert!(BitPackingReader::new(&[0u8, 1, 0, 0, 9]).is_err());
}

#[test]
fn packed_reader_gets_by_index() {
    let block = [0x03u8, 0, 0, 0, 0x88, 0xC6, 0xFA, 0xFF];
    let reader = BitPackingReader::new(&block).unwrap();
    assert_eq!(reader.get(0, 3), Ok(0));
    assert_eq!(reader.get(5, 3), Ok(5));
    assert_eq!(reader.get(7, 3), Ok(7));
    assert_eq!(reader.get(8, 3), Err(ReadError::TruncatedInput));
    assert_eq!(reader.get(2, 8), Ok(0xFA));
    assert_eq!(reader.get(3, 8), Err(ReadError::TruncatedInput));
}

#[test]
fn page_levels_exact_count() {
    let page = [0x02u8, 0, 0, 0, 0x0A, 0x03, 0x11, 0x22];
    assert_eq!(decode_levels(&page, 2, 5), Ok((vec![3, 3, 3, 3, 3], 6)));
    assert_eq!(decode_levels(&page, 2, 3), Ok((vec![3, 3, 3], 6)));
    assert_eq!(decode_levels(&page, 2, 6), Err(ReadError::ValueCountMismatch));
}

#[test]
fn page_levels_padding_is_dropped() {
    let page = [0x04u8, 0, 0, 0, 0x03, 0x88, 0xC6, 0xFA, 0x99];
    assert_eq!(decode_levels(&page, 3, 6), Ok((vec![0, 1, 2, 3, 4, 5], 8)));
    assert_eq!(decode_levels(&page, 3, 8), Ok((vec![0, 1, 2, 3, 4, 5, 6, 7], 8)));
    assert_eq!(decode_levels(&page, 3, 9), Err(ReadError::ValueCountMismatch));
}

#[test]
fn page_levels_leftover_run_is_an_error() {
    let page = [0x04u8, 0, 0, 0, 0x04, 0x01, 0x04, 0x02];
    assert_eq!(decode_levels(&page, 2, 4), Ok((vec![1, 1, 2, 2], 8)));
    assert_eq!(decode_levels(&page, 2, 3), Ok((vec![1, 1, 2], 8)));
    assert_eq!(decode_levels(&page, 2, 2), Err(ReadError::ValueCountMismatch));
    assert_eq!(decode_levels(&page, 2, 0), Err(ReadError::ValueCountMismatch));
}

#[test]
fn page_levels_empty_block() {
    let page = [0x00u8, 0, 0, 0, 0x55];
    assert_eq!(decode_levels(&page, 1, 0), Ok((vec![], 4)));
    assert_eq!(decode_levels(&page, 1, 1), Err(ReadError::ValueCountMismatch));
}

#[test]
fn page_levels_truncated() {
    assert_eq!(decode_levels(&[1u8, 0, 0], 1, 0), Err(ReadError::TruncatedInput));
    assert_eq!(decode_levels(&[9u8, 0, 0, 0, 2, 1], 1, 1), Err(ReadError::TruncatedInput));
    assert_eq!(decode_levels(&[1u8, 0, 0, 0, 0x02], 1, 1), Err(ReadError::TruncatedInput));
    assert_eq!(decode_levels(&[1u8, 0, 0, 0, 0x82], 1, 1), Err(ReadError::TruncatedInput));
    assert_eq!(decode_levels(&[1u8, 0, 0, 0, 0x03], 1, 1), Err(ReadError::TruncatedInput));
}

#[test]
fn trailing_bytes_do_not_change_levels() {
    let page = [0x06u8, 0, 0, 0, 0x04, 0x01, 0x03, 0x88, 0xC6, 0xFA];
    let expected = Ok((vec![1, 1, 0, 1, 2, 3, 4, 5, 6], 10));
    assert_eq!(decode_levels(&page, 3, 9), expected);
    let mut longer = page.to_vec();
    longer.extend_from_slice(&[0x0A, 0x07, 0xFF, 0x80, 0x80]);
    assert_eq!(decode_levels(&longer, 3, 9), expected);
    longer.extend_from_slice(&[0u8; 40]);
    assert_eq!(decode_levels(&longer, 3, 9), expected);
}
