use serde_csv_core::codec::{
    is_decimal, parse_bool, parse_char, parse_i16, parse_i32, parse_i64, parse_i8, parse_str,
    parse_u16, parse_u32, parse_u64, parse_u8,
};
use serde_csv_core::de::{same_bytes, Error, Reader};
use serde_csv_core::value::{Shape, Value};
use serde_csv_core::Writer;

fn encode(value: &Value) -> Vec<u8> {
    let mut writer = Writer::new();
    let mut buf = [0u8; 64];
    let n = writer.serialize(value, &mut buf).unwrap();
    buf[..n].to_vec()
}

#[test]
fn booleans_are_the_two_literals() {
    assert_eq!(parse_bool(b"true"), Some(true));
    assert_eq!(parse_bool(b"false"), Some(false));
    assert_eq!(parse_bool(b""), None);
    assert_eq!(parse_bool(b"TRUE"), None);
    assert_eq!(parse_bool(b"true "), None);
    assert_eq!(parse_bool(b"fals"), None);
    assert_eq!(encode(&Value::Bool(true)), b"true\n");
    assert_eq!(encode(&Value::Bool(false)), b"false\n");
}

#[test]
fn integers_are_written_in_minimal_decimal() {
    assert_eq!(encode(&Value::I8(i8::MIN)), b"-128\n");
    assert_eq!(encode(&Value::I16(i16::MAX)), b"32767\n");
    assert_eq!(encode(&Value::I32(0)), b"0\n");
    assert_eq!(encode(&Value::I64(i64::MIN)), b"-9223372036854775808\n");
    assert_eq!(encode(&Value::U8(255)), b"255\n");
    assert_eq!(encode(&Value::U16(10)), b"10\n");
    assert_eq!(encode(&Value::U32(766_683)), b"766683\n");
    assert_eq!(encode(&Value::U64(u64::MAX)), b"18446744073709551615\n");
}

#[test]
fn integers_are_read_within_their_range() {
    assert_eq!(parse_i8(b"127"), Some(127));
    assert_eq!(parse_i8(b"128"), None);
    assert_eq!(parse_i8(b"-128"), Some(-128));
    assert_eq!(parse_i8(b"-129"), None);
    assert_eq!(parse_i16(b"-32768"), Some(i16::MIN));
    assert_eq!(parse_i16(b"32768"), None);
    assert_eq!(parse_i32(b"2147483647"), Some(i32::MAX));
    assert_eq!(parse_i32(b"2147483648"), None);
    assert_eq!(parse_i64(b"-9223372036854775808"), Some(i64::MIN));
    assert_eq!(parse_i64(b"9223372036854775808"), None);
    assert_eq!(parse_u8(b"255"), Some(255));
    assert_eq!(parse_u8(b"256"), None);
    assert_eq!(parse_u16(b"65535"), Some(u16::MAX));
    assert_eq!(parse_u16(b"65536"), None);
    assert_eq!(parse_u32(b"4294967295"), Some(u32::MAX));
    assert_eq!(parse_u32(b"4294967296"), None);
    assert_eq!(parse_u64(b"18446744073709551615"), Some(u64::MAX));
    assert_eq!(parse_u64(b"18446744073709551616"), None);
    assert_eq!(parse_u64(b"-0"), Some(0));
    assert_eq!(parse_u64(b"-1"), None);
}

#[test]
fn integers_take_a_sign_and_leading_zeros() {
    assert_eq!(parse_i32(b"+42"), Some(42));
    assert_eq!(parse_i32(b"0042"), Some(42));
    assert_eq!(parse_i32(b"-007"), Some(-7));
    assert_eq!(parse_u8(b"0000000000000000000000255"), Some(255));
}

#[test]
fn integers_are_decimal_up_to_the_end_of_the_field() {
    assert!(is_decimal(b"12"));
    assert!(is_decimal(b"-12"));
    assert!(is_decimal(b"+12"));
    assert!(!is_decimal(b""));
    assert!(!is_decimal(b"-"));
    assert!(!is_decimal(b"+"));
    assert!(!is_decimal(b"12abc"));
    assert!(!is_decimal(b" 12"));
    assert!(!is_decimal(b"1.5"));
    assert!(!is_decimal(b"--1"));
    assert_eq!(parse_i32(b""), None);
    assert_eq!(parse_i32(b"-"), None);
    assert_eq!(parse_i32(b"12abc"), None);
    assert_eq!(parse_u32(b"12 "), None);
    assert_eq!(parse_i64(b"0x10"), None);
    let mut reader: Reader<8> = Reader::new();
    assert_eq!(reader.deserialize(&Shape::I32, b"12abc\n"), Err(Error::InvalidInt));
}

#[test]
fn characters_are_exactly_one_code_point() {
    assert_eq!(parse_char(b"a"), Some('a'));
    assert_eq!(parse_char("ą".as_bytes()), Some('ą'));
    assert_eq!(parse_char("€".as_bytes()), Some('€'));
    assert_eq!(parse_char("𝄞".as_bytes()), Some('𝄞'));
    assert_eq!(parse_char(b""), None);
    assert_eq!(parse_char(b"ab"), None);
    assert_eq!(parse_char(b"\xc4"), None);
    assert_eq!(encode(&Value::Char('𝄞')), "𝄞\n".as_bytes());
    assert_eq!(encode(&Value::Char('a')), b"a\n");
}

#[test]
fn strings_are_utf8() {
    assert_eq!(parse_str(b"hello"), Some("hello"));
    assert_eq!(parse_str(b""), Some(""));
    assert_eq!(parse_str("zażółć".as_bytes()), Some("zażółć"));
    assert_eq!(parse_str(b"\xc4"), None);
    assert_eq!(parse_str(b"a\xffb"), None);
    assert_eq!(encode(&Value::Str(String::from("zażółć"))), "zażółć\n".as_bytes());
}

#[test]
fn bytes_pass_through() {
    assert_eq!(encode(&Value::Bytes(vec![0x61, 0xff, 0x62])), b"a\xffb\n");
    let mut reader: Reader<8> = Reader::new();
    assert_eq!(
        reader.deserialize(&Shape::Bytes, b"a\xffb\n"),
        Ok((Value::Bytes(vec![0x61, 0xff, 0x62]), 4))
    );
}

#[test]
fn byte_slices_are_compared_byte_by_byte() {
    assert!(same_bytes(b"", b""));
    assert!(same_bytes(b"abc", b"abc"));
    assert!(!same_bytes(b"abc", b"abd"));
    assert!(!same_bytes(b"abc", b"ab"));
}

#[test]
fn text_of_an_integer_reads_back() {
    for v in [i64::MIN, -1000, -1, 0, 1, 9, 10, 99, 100, i64::MAX] {
        let bytes = encode(&Value::I64(v));
        assert_eq!(parse_i64(&bytes[..bytes.len() - 1]), Some(v));
    }
    for v in [0u64, 7, 10, u64::MAX] {
        let bytes = encode(&Value::U64(v));
        assert_eq!(parse_u64(&bytes[..bytes.len() - 1]), Some(v));
    }
}
