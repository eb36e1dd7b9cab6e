use std::io::BufReader;

use std::io::Read;

use mcstructs::varint::decode_varint;
use mcstructs::varint::decode_varlong;
use mcstructs::varint::read_varint_bufreader;
use mcstructs::varint::read_varint_from;
use mcstructs::varint::read_varlong_bufreader;
use mcstructs::varint::read_varlong_from;
use mcstructs::varint::VarIntReadError;

fn varint(bytes: &[u8]) -> Result<i32, VarIntReadError> {
    read_varint_bufreader(BufReader::new(bytes))
}

fn varlong(bytes: &[u8]) -> Result<i64, VarIntReadError> {
    read_varlong_bufreader(BufReader::new(bytes))
}

#[test]
fn varint_test_read_varint_bufreader_1() {
    let bytes: &[u8; 2] = &[0xFF, 0x01];
    let reader: BufReader<&[u8]> = BufReader::new(bytes);

    let result: Result<i32, VarIntReadError> = read_varint_bufreader(reader);

    assert_eq!(result, Ok(0xFF));
}

#[test]
fn test_read_varint_bufreader_2() {
    let bytes: &[u8; 6] = &[0xFF, 0xFF, 0xFF, 0xFF, 0xFF, 0xFF];
    let reader: BufReader<&[u8]> = BufReader::new(bytes);

    let result: Result<i32, VarIntReadError> = read_varint_bufreader(reader);

    assert_eq!(result, Err(VarIntReadError::VarIntTooLong));
}

#[test]
fn varint_test_read_varlong_bufreader_2() {
    let bytes: &[u8; 11] = &[0xFF, 0xFF, 0xFF, 0xFF, 0xFF, 0xFF, 0xFF, 0xFF, 0xFF, 0xFF, 0xFF];
    let reader: BufReader<&[u8]> = BufReader::new(bytes);

    let result: Result<i64, VarIntReadError> = read_varlong_bufreader(reader);

    assert_eq!(result, Err(VarIntReadError::VarIntTooLong));
}

#[test]
fn varints_test_read_varint_bufreader_1() {
    let bytes: &[u8; 2] = &[0xFF, 0x01];
    let reader: BufReader<&[u8]> = BufReader::new(bytes);

    let result: Result<i32, VarIntReadError> = read_varint_bufreader(reader);

    assert_eq!(result, Ok(0xFF));
}

#[test]
fn read_varlong_two_groups() {
    assert_eq!(varlong(&[0xFF, 0x01]), Ok(0xFF));
}

#[test]
fn read_varint_zero() {
    assert_eq!(varint(&[0x00]), Ok(0));
}

#[test]
fn read_varint_three_hundred() {
    assert_eq!(varint(&[0xAC, 0x02]), Ok(300));
}

#[test]
fn read_varint_largest() {
    assert_eq!(varint(&[0xFF, 0xFF, 0xFF, 0xFF, 0x07]), Ok(2147483647));
}

#[test]
fn read_varint_minus_one_is_signed() {
    assert_eq!(varint(&[0xFF, 0xFF, 0xFF, 0xFF, 0x0F]), Ok(-1));
}

#[test]
fn read_varint_smallest() {
    assert_eq!(varint(&[0x80, 0x80, 0x80, 0x80, 0x08]), Ok(i32::MIN));
}

#[test]
fn read_varint_drops_bits_past_the_width() {
    assert_eq!(varint(&[0xFF, 0xFF, 0xFF, 0xFF, 0x7F]), Ok(-1));
    assert_eq!(varint(&[0x80, 0x80, 0x80, 0x80, 0x70]), Ok(0));
}

#[test]
fn read_varint_stops_at_the_last_group() {
    assert_eq!(varint(&[0x05, 0xFF, 0xFF, 0xFF, 0xFF, 0xFF, 0xFF]), Ok(5));
    assert_eq!(varint(&[0xAC, 0x02, 0x80]), Ok(300));
}

#[test]
fn read_varint_accepts_padding_groups() {
    assert_eq!(varint(&[0x80, 0x00]), Ok(0));
    assert_eq!(varint(&[0xAC, 0x82, 0x00]), Ok(300));
    assert_eq!(varint(&[0x81, 0x80, 0x80, 0x80, 0x00]), Ok(1));
}

#[test]
fn read_varint_five_open_groups_is_too_long() {
    assert_eq!(varint(&[0xFF, 0xFF, 0xFF, 0xFF, 0xFF]), Err(VarIntReadError::VarIntTooLong));
    assert_eq!(varint(&[0x80, 0x80, 0x80, 0x80, 0x80, 0x00]), Err(VarIntReadError::VarIntTooLong));
}

#[test]
fn read_varint_empty_stream() {
    assert_eq!(varint(&[]), Err(VarIntReadError::ReadError));
}

#[test]
fn read_varint_truncated_stream() {
    assert_eq!(varint(&[0x80]), Err(VarIntReadError::ReadError));
    assert_eq!(varint(&[0xFF, 0xFF, 0xFF, 0xFF]), Err(VarIntReadError::ReadError));
}

#[test]
fn read_varlong_six_open_groups_then_end() {
    assert_eq!(varlong(&[0xFF, 0xFF, 0xFF, 0xFF, 0xFF, 0xFF]), Err(VarIntReadError::ReadError));
}

#[test]
fn read_varlong_six_groups() {
    assert_eq!(varlong(&[0xFF, 0xFF, 0xFF, 0xFF, 0xFF, 0x7F]), Ok(0x3ff_ffff_ffff));
}

#[test]
fn read_varlong_extremes() {
    assert_eq!(
        varlong(&[0xFF, 0xFF, 0xFF, 0xFF, 0xFF, 0xFF, 0xFF, 0xFF, 0xFF, 0x01]),
        Ok(-1)
    );
    assert_eq!(
        varlong(&[0xFF, 0xFF, 0xFF, 0xFF, 0xFF, 0xFF, 0xFF, 0xFF, 0x7F]),
        Ok(i64::MAX)
    );
    assert_eq!(
        varlong(&[0x80, 0x80, 0x80, 0x80, 0x80, 0x80, 0x80, 0x80, 0x80, 0x01]),
        Ok(i64::MIN)
    );
}

#[test]
fn read_varlong_drops_bits_past_the_width() {
    assert_eq!(
        varlong(&[0x80, 0x80, 0x80, 0x80, 0x80, 0x80, 0x80, 0x80, 0x80, 0x7E]),
        Ok(0)
    );
    assert_eq!(
        varlong(&[0x80, 0x80, 0x80, 0x80, 0x80, 0x80, 0x80, 0x80, 0x80, 0x7F]),
        Ok(i64::MIN)
    );
}

#[test]
fn read_varlong_ten_open_groups_is_too_long() {
    assert_eq!(
        varlong(&[0x80, 0x80, 0x80, 0x80, 0x80, 0x80, 0x80, 0x80, 0x80, 0x80]),
        Err(VarIntReadError::VarIntTooLong)
    );
}

#[test]
fn read_varlong_truncated_stream() {
    assert_eq!(varlong(&[]), Err(VarIntReadError::ReadError));
    assert_eq!(
        varlong(&[0xFF, 0xFF, 0xFF, 0xFF, 0xFF, 0xFF, 0xFF, 0xFF, 0xFF]),
        Err(VarIntReadError::ReadError)
    );
}

#[test]
fn read_varint_takes_a_varlong_prefix_differently() {
    let bytes: [u8; 6] = [0x80, 0x80, 0x80, 0x80, 0x80, 0x01];
    assert_eq!(varint(&bytes), Err(VarIntReadError::VarIntTooLong));
    assert_eq!(varlong(&bytes), Ok(1 << 35));
}

fn rest(reader: &mut BufReader<&[u8]>) -> Vec<u8> {
    let mut left: Vec<u8> = Vec::new();
    reader.read_to_end(&mut left).unwrap();
    left
}

#[test]
fn read_varint_from_takes_the_value_and_no_more() {
    let bytes: [u8; 5] = [0xAC, 0x02, 0x05, 0xFF, 0x01];
    let mut reader: BufReader<&[u8]> = BufReader::new(&bytes[..]);
    assert_eq!(read_varint_from(&mut reader), Ok(300));
    assert_eq!(read_varint_from(&mut reader), Ok(5));
    assert_eq!(read_varint_from(&mut reader), Ok(0xFF));
    assert_eq!(read_varint_from(&mut reader), Err(VarIntReadError::ReadError));
}

#[test]
fn read_varint_from_leaves_what_follows() {
    let bytes: [u8; 4] = [0x80, 0x01, 0x33, 0x44];
    let mut reader: BufReader<&[u8]> = BufReader::new(&bytes[..]);
    assert_eq!(read_varint_from(&mut reader), Ok(128));
    assert_eq!(rest(&mut reader), vec![0x33, 0x44]);
}

#[test]
fn read_varint_from_stops_after_five_open_groups() {
    let bytes: [u8; 7] = [0xFF, 0xFF, 0xFF, 0xFF, 0xFF, 0x2A, 0x2B];
    let mut reader: BufReader<&[u8]> = BufReader::new(&bytes[..]);
    assert_eq!(read_varint_from(&mut reader), Err(VarIntReadError::VarIntTooLong));
    assert_eq!(rest(&mut reader), vec![0x2A, 0x2B]);
}

#[test]
fn read_varint_from_ends_at_the_end() {
    let bytes: [u8; 2] = [0x80, 0x80];
    let mut reader: BufReader<&[u8]> = BufReader::new(&bytes[..]);
    assert_eq!(read_varint_from(&mut reader), Err(VarIntReadError::ReadError));
    assert_eq!(rest(&mut reader), Vec::<u8>::new());
}

#[test]
fn read_varlong_from_takes_the_value_and_no_more() {
    let bytes: [u8; 13] = [
        0xFF, 0xFF, 0xFF, 0xFF, 0xFF, 0xFF, 0xFF, 0xFF, 0xFF, 0x01, 0xAC, 0x02, 0x09,
    ];
    let mut reader: BufReader<&[u8]> = BufReader::new(&bytes[..]);
    assert_eq!(read_varlong_from(&mut reader), Ok(-1));
    assert_eq!(read_varlong_from(&mut reader), Ok(300));
    assert_eq!(rest(&mut reader), vec![0x09]);
}

#[test]
fn read_varlong_from_stops_after_ten_open_groups() {
    let bytes: [u8; 12] = [
        0x80, 0x80, 0x80, 0x80, 0x80, 0x80, 0x80, 0x80, 0x80, 0x80, 0x01, 0x02,
    ];
    let mut reader: BufReader<&[u8]> = BufReader::new(&bytes[..]);
    assert_eq!(read_varlong_from(&mut reader), Err(VarIntReadError::VarIntTooLong));
    assert_eq!(rest(&mut reader), vec![0x01, 0x02]);
}

#[test]
fn read_varlong_from_ends_at_the_end() {
    let bytes: [u8; 3] = [0xFF, 0xFF, 0xFF];
    let mut reader: BufReader<&[u8]> = BufReader::new(&bytes[..]);
    assert_eq!(read_varlong_from(&mut reader), Err(VarIntReadError::ReadError));
    assert_eq!(rest(&mut reader), Vec::<u8>::new());
}

#[test]
fn read_from_a_reader_with_a_small_buffer() {
    let bytes: [u8; 6] = [0xFF, 0xFF, 0xFF, 0xFF, 0x0F, 0x11];
    let mut reader: BufReader<&[u8]> = BufReader::with_capacity(1, &bytes[..]);
    assert_eq!(read_varint_from(&mut reader), Ok(-1));
    assert_eq!(rest(&mut reader), vec![0x11]);
}

#[test]
fn decode_varint_scenarios() {
    assert_eq!(decode_varint(&[0x00]), Ok(0));
    assert_eq!(decode_varint(&[0xAC, 0x02]), Ok(300));
    assert_eq!(decode_varint(&[0xFF, 0x01]), Ok(0xFF));
    assert_eq!(decode_varint(&[0xFF, 0xFF, 0xFF, 0xFF, 0x0F]), Ok(-1));
    assert_eq!(decode_varint(&[0xFF, 0xFF, 0xFF, 0xFF, 0x07]), Ok(2147483647));
    assert_eq!(
        decode_varint(&[0xFF, 0xFF, 0xFF, 0xFF, 0xFF, 0xFF]),
        Err(VarIntReadError::VarIntTooLong)
    );
    assert_eq!(decode_varint(&[0xFF]), Err(VarIntReadError::ReadError));
    assert_eq!(decode_varint(&[]), Err(VarIntReadError::ReadError));
}

#[test]
fn decode_varlong_scenarios() {
    assert_eq!(decode_varlong(&[0x00]), Ok(0));
    assert_eq!(decode_varlong(&[0xFF, 0x01]), Ok(255));
    assert_eq!(decode_varlong(&[0x80, 0x80, 0x80, 0x80, 0x08]), Ok(2147483648));
    assert_eq!(
        decode_varlong(&[0xFF, 0xFF, 0xFF, 0xFF, 0xFF, 0xFF, 0xFF, 0xFF, 0xFF, 0x01]),
        Ok(-1)
    );
    assert_eq!(
        decode_varlong(&[0xFF, 0xFF, 0xFF, 0xFF, 0xFF, 0xFF, 0xFF, 0xFF, 0xFF, 0xFF, 0xFF]),
        Err(VarIntReadError::VarIntTooLong)
    );
    assert_eq!(decode_varlong(&[0x80, 0x80]), Err(VarIntReadError::ReadError));
}
