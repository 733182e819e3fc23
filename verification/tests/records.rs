use serde_csv_core::de::{self, Deserializer, Reader};
use serde_csv_core::ser::{self, Serializer};
use serde_csv_core::value::{Shape, Value};
use serde_csv_core::Writer;

fn text(s: &str) -> Value {
    Value::Str(String::from(s))
}

fn encode(value: &Value) -> Vec<u8> {
    let mut writer = Writer::new();
    let mut buf = [0u8; 128];
    let n = writer.serialize(value, &mut buf).unwrap();
    buf[..n].to_vec()
}

fn city() -> Value {
    Value::Struct(vec![text("Poland"), text("Cracow"), Value::U32(766_683)])
}

fn city_shape() -> Shape {
    Shape::Struct(vec![Shape::Str, Shape::Str, Shape::U32])
}

#[test]
fn encodes_a_record_of_three_fields() {
    assert_eq!(encode(&city()), b"Poland,Cracow,766683\n");
}

#[test]
fn decodes_a_record_of_three_fields() {
    let mut reader: Reader<32> = Reader::new();
    let result = reader.deserialize(&city_shape(), b"Poland,Cracow,766683\n");
    assert_eq!(result, Ok((city(), 21)));
}

#[test]
fn decodes_records_one_after_the_other() {
    let csv = b"Poland,Cracow,766683\nJapan,Tokyo,13515271\n";
    let mut reader: Reader<32> = Reader::new();
    let (first, n) = reader.deserialize(&city_shape(), &csv[..]).unwrap();
    assert_eq!(first, city());
    assert_eq!(n, 21);
    let (second, m) = reader.deserialize(&city_shape(), &csv[n..]).unwrap();
    assert_eq!(
        second,
        Value::Struct(vec![text("Japan"), text("Tokyo"), Value::U32(13_515_271)])
    );
    assert_eq!(n + m, csv.len());
}

#[test]
fn encodes_records_one_after_the_other() {
    let mut writer = Writer::new();
    let mut csv = [0u8; 128];
    let mut nwritten = 0;
    nwritten += writer.serialize(&city(), &mut csv[nwritten..]).unwrap();
    let tokyo = Value::Struct(vec![text("Japan"), text("Tokyo"), Value::U32(13_515_271)]);
    nwritten += writer.serialize(&tokyo, &mut csv[nwritten..]).unwrap();
    assert_eq!(&csv[..nwritten], b"Poland,Cracow,766683\nJapan,Tokyo,13515271\n");
}

#[test]
fn round_trip_gives_the_value_back() {
    let values = vec![
        (Value::Bool(true), Shape::Bool),
        (Value::I64(i64::MIN), Shape::I64),
        (Value::U64(u64::MAX), Shape::U64),
        (Value::Char('ą'), Shape::Char),
        (text("a \"quoted\", field\nwith a break"), Shape::Str),
        (Value::Bytes(vec![1, 2, 3]), Shape::Bytes),
        (
            Value::Tuple(vec![Value::Absent, Value::I8(-5), Value::Present(Box::new(Value::U8(7)))]),
            Shape::Tuple(vec![
                Shape::Optional(Box::new(Shape::I32)),
                Shape::I8,
                Shape::Optional(Box::new(Shape::U8)),
            ]),
        ),
        (
            Value::Struct(vec![Value::Newtype(Box::new(Value::I16(300))), Value::List(vec![Value::U16(1), Value::U16(2)])]),
            Shape::Struct(vec![
                Shape::Newtype(Box::new(Shape::I16)),
                Shape::List(Box::new(Shape::U16)),
            ]),
        ),
        (city(), city_shape()),
        (Value::UnitStruct(String::from("Record")), Shape::UnitStruct(String::from("Record"))),
        (
            Value::Tuple(vec![Value::UnitStruct(String::from("Record")), Value::I8(1)]),
            Shape::Tuple(vec![Shape::UnitStruct(String::from("Record")), Shape::I8]),
        ),
    ];
    for (value, shape) in values {
        let bytes = encode(&value);
        let mut reader: Reader<64> = Reader::new();
        let result = reader.deserialize(&shape, &bytes);
        assert_eq!(result, Ok((value, bytes.len())));
    }
}

#[test]
fn decoding_a_prefix_gives_the_same() {
    let input = b"0,1,2,3\n4,5,6,7\n";
    let shape = Shape::Tuple(vec![Shape::I32, Shape::I32]);
    let mut reader: Reader<8> = Reader::new();
    let (value, n) = reader.deserialize(&shape, &input[..]).unwrap();
    assert_eq!(n, 4);
    let again = reader.deserialize(&shape, &input[..n]);
    assert_eq!(again, Ok((value, n)));

    let whole = Shape::List(Box::new(Shape::I32));
    let (value, n) = reader.deserialize(&whole, &input[..]).unwrap();
    assert_eq!(n, 8);
    let again = reader.deserialize(&whole, &input[..n]);
    assert_eq!(again, Ok((value, n)));
}

#[test]
fn a_record_of_k_leaves_has_k_minus_one_delimiters() {
    for k in 1..6usize {
        let leaves: Vec<Value> = (0..k).map(|i| Value::U8(i as u8)).collect();
        let bytes = encode(&Value::Struct(vec![Value::Tuple(leaves), Value::List(vec![])]));
        assert_eq!(bytes.iter().filter(|b| **b == b',').count(), k - 1);
        assert_eq!(bytes.iter().filter(|b| **b == b'\n').count(), 1);
        assert_eq!(bytes.last(), Some(&b'\n'));
        let mut tokenizer = csv_core::Reader::new();
        let mut fields = 0;
        let mut at = 0;
        loop {
            let mut scratch = [0u8; 8];
            let (result, nin, _) = tokenizer.read_field(&bytes[at..], &mut scratch);
            at += nin;
            match result {
                csv_core::ReadFieldResult::Field { record_end } => {
                    fields += 1;
                    if record_end {
                        break;
                    }
                }
                _ => panic!("the record has no end"),
            }
        }
        assert_eq!(fields, k);
        assert_eq!(at, bytes.len());
    }
}

#[test]
fn nested_composites_flatten() {
    let number = |v: i32| Value::I32(v);
    let nested = Value::Struct(vec![
        Value::Tuple(vec![number(0), number(1)]),
        Value::Tuple(vec![number(2), number(3), number(4), number(5)]),
        Value::Struct(vec![number(6), number(7)]),
    ]);
    let flat = Value::Tuple((0..8).map(number).collect());
    assert_eq!(encode(&nested), encode(&flat));
    assert_eq!(encode(&flat), b"0,1,2,3,4,5,6,7\n");
}

#[test]
fn an_empty_composite_inside_a_record_takes_no_field() {
    let value = Value::Tuple(vec![Value::Unit, Value::List(vec![]), Value::I32(5)]);
    assert_eq!(encode(&value), b",5\n");
}

#[test]
fn overflow_leaves_the_count_within_the_buffer() {
    let value = Value::Tuple(vec![text("abc"), text("d,e"), Value::I32(12345)]);
    for len in 0..16usize {
        let mut buf = vec![0u8; len];
        let mut writer = Writer::new();
        assert_eq!(writer.serialize(&value, &mut buf), Err(ser::Error::Overflow));

        let writer = Writer::new();
        let mut serializer = Serializer::new(&writer, &mut buf);
        let failed = serializer.serialize_value(&value).is_err() || serializer.terminator().is_err();
        assert!(failed);
        assert!(serializer.bytes_written() <= len);
        assert_eq!(serializer.field(b"x"), Err(ser::Error::Overflow));
        assert!(serializer.bytes_written() <= len);
    }
    let mut buf = vec![0u8; 16];
    let mut writer = Writer::new();
    assert_eq!(writer.serialize(&value, &mut buf), Ok(16));
    assert_eq!(&buf[..], b"abc,\"d,e\",12345\n");
}

#[test]
fn a_writer_starts_every_record_afresh() {
    let mut writer = Writer::new();
    let mut small = [0u8; 0];
    assert_eq!(writer.serialize(&text("a,b"), &mut small), Err(ser::Error::Overflow));
    let mut buf = [0u8; 8];
    assert_eq!(writer.serialize(&Value::List(vec![]), &mut buf), Ok(3));
    assert_eq!(&buf[..3], b"\"\"\n");
    assert_eq!(writer.serialize(&text("a,b"), &mut buf), Ok(6));
    assert_eq!(&buf[..6], b"\"a,b\"\n");
}

#[test]
fn a_reader_starts_every_record_afresh() {
    let mut reader: Reader<5> = Reader::new();
    let pair = Shape::Tuple(vec![Shape::I32]);
    assert_eq!(reader.deserialize(&pair, b"1,2,3\n"), Ok((Value::Tuple(vec![Value::I32(1)]), 2)));
    assert_eq!(reader.deserialize(&Shape::I32, b"7\n"), Ok((Value::I32(7), 2)));
    assert_eq!(reader.deserialize(&pair, b"1,2,3\n"), Ok((Value::Tuple(vec![Value::I32(1)]), 2)));
    assert_eq!(reader.deserialize(&Shape::I32, b"\n5\n"), Ok((Value::I32(5), 3)));
    assert_eq!(reader.deserialize(&Shape::Bool, b"toolong"), Err(de::Error::Overflow));
    assert_eq!(reader.deserialize(&Shape::Bool, b"true\n"), Ok((Value::Bool(true), 5)));
}

#[test]
fn the_unit_value_still_makes_a_record() {
    assert_eq!(encode(&Value::Unit), b"\"\"\n");
    assert_eq!(encode(&Value::Absent), b"\"\"\n");
    assert_eq!(encode(&Value::List(vec![])), b"\"\"\n");
    assert_eq!(encode(&Value::Tuple(vec![Value::Unit, Value::Unit])), b",\n");
}

#[test]
fn a_name_is_written_for_a_variant_and_none_for_a_unit_struct() {
    assert_eq!(encode(&Value::UnitStruct(String::from("Record"))), b"\"\"\n");
    assert_eq!(encode(&Value::UnitVariant(String::from("B"))), b"B\n");
}

#[test]
fn a_configured_writer_uses_its_delimiter_and_terminator() {
    let mut builder = csv_core::WriterBuilder::new();
    builder.delimiter(b';').terminator(csv_core::Terminator::CRLF);
    let mut writer = Writer::from_builder(&builder);
    let mut buf = [0u8; 32];
    let value = Value::Tuple(vec![Value::I32(1), text("a,b"), text("c;d")]);
    let n = writer.serialize(&value, &mut buf).unwrap();
    assert_eq!(&buf[..n], b"1;a,b;\"c;d\"\r\n");
}

#[test]
fn a_configured_reader_uses_its_delimiter() {
    let mut builder = csv_core::ReaderBuilder::new();
    builder.delimiter(b';');
    let mut reader: Reader<8> = Reader::from_builder(&builder);
    let shape = Shape::Tuple(vec![Shape::I32, Shape::Str]);
    let result = reader.deserialize(&shape, b"1;a,b\n");
    assert_eq!(result, Ok((Value::Tuple(vec![Value::I32(1), text("a,b")]), 6)));
}

#[test]
fn the_count_of_bytes_read_takes_in_the_terminator() {
    let mut reader: Reader<8> = Reader::new();
    assert_eq!(reader.deserialize(&Shape::I32, b"12\n34\n"), Ok((Value::I32(12), 3)));
    assert_eq!(reader.deserialize(&Shape::I32, b"12"), Ok((Value::I32(12), 2)));
}

#[test]
fn flattened_input_decodes_into_nested_shapes() {
    let shape = Shape::Struct(vec![
        Shape::Tuple(vec![Shape::I32, Shape::I32]),
        Shape::Tuple(vec![Shape::I32, Shape::I32, Shape::I32, Shape::I32]),
        Shape::Struct(vec![Shape::I32, Shape::I32]),
    ]);
    let mut reader: Reader<2> = Reader::new();
    let (value, n) = reader.deserialize(&shape, b"0,1,2,3,4,5,6,7").unwrap();
    assert_eq!(n, 15);
    assert_eq!(encode(&value), b"0,1,2,3,4,5,6,7\n");
}

#[test]
fn an_absent_value_uses_up_its_empty_field() {
    let shape = Shape::Tuple(vec![Shape::Optional(Box::new(Shape::I32)), Shape::I32]);
    let mut reader: Reader<4> = Reader::new();
    let result = reader.deserialize(&shape, b",5\n");
    assert_eq!(result, Ok((Value::Tuple(vec![Value::Absent, Value::I32(5)]), 3)));
    let result = reader.deserialize(&shape, b"4,5\n");
    assert_eq!(
        result,
        Ok((Value::Tuple(vec![Value::Present(Box::new(Value::I32(4))), Value::I32(5)]), 4))
    );
}

#[test]
fn a_list_takes_the_fields_up_to_the_end_of_the_record() {
    let shape = Shape::List(Box::new(Shape::I32));
    let mut reader: Reader<4> = Reader::new();
    let result = reader.deserialize(&shape, b"1,2,3\n4\n");
    assert_eq!(
        result,
        Ok((Value::List(vec![Value::I32(1), Value::I32(2), Value::I32(3)]), 6))
    );
}

#[test]
fn a_list_ends_when_the_input_gives_nothing_more() {
    let mut reader: Reader<4> = Reader::new();
    let units = Shape::List(Box::new(Shape::Unit));
    assert_eq!(reader.deserialize(&units, b""), Ok((Value::List(vec![Value::Unit]), 0)));
    let empties = Shape::List(Box::new(Shape::Tuple(vec![])));
    assert_eq!(
        reader.deserialize(&empties, b"1,2\n"),
        Ok((Value::List(vec![Value::Tuple(vec![])]), 0))
    );
    let strings = Shape::List(Box::new(Shape::Str));
    assert_eq!(
        reader.deserialize(&strings, b"a"),
        Ok((Value::List(vec![text("a"), text("")]), 1))
    );
}

#[test]
fn a_record_that_is_too_short_is_rejected() {
    let shape = Shape::Tuple(vec![Shape::I32, Shape::I32, Shape::I32]);
    let mut reader: Reader<4> = Reader::new();
    assert_eq!(reader.deserialize(&shape, b"1,2\n3\n"), Err(de::Error::Custom));
}

#[test]
fn a_newtype_is_transparent() {
    let shape = Shape::Newtype(Box::new(Shape::U8));
    let mut reader: Reader<4> = Reader::new();
    let value = Value::Newtype(Box::new(Value::U8(9)));
    assert_eq!(reader.deserialize(&shape, b"9\n"), Ok((value, 2)));
    assert_eq!(encode(&Value::Newtype(Box::new(Value::U8(9)))), b"9\n");
}

#[test]
fn a_variant_is_found_by_its_name() {
    let shape = Shape::Variant(vec![String::from("A"), String::from("Bee"), String::from("C")]);
    let mut reader: Reader<4> = Reader::new();
    assert_eq!(
        reader.deserialize(&shape, b"Bee\n"),
        Ok((Value::UnitVariant(String::from("Bee")), 4))
    );
    assert_eq!(reader.deserialize(&shape, b"D\n"), Err(de::Error::Custom));
    assert_eq!(reader.deserialize(&shape, b"\n"), Err(de::Error::Custom));
}

#[test]
fn an_ignored_field_is_read_and_dropped() {
    let shape = Shape::Tuple(vec![Shape::Ignored, Shape::I32]);
    let mut reader: Reader<16> = Reader::new();
    assert_eq!(
        reader.deserialize(&shape, b"whatever,3\n"),
        Ok((Value::Tuple(vec![Value::Unit, Value::I32(3)]), 11))
    );
}

#[test]
fn every_error_has_its_input() {
    let mut reader: Reader<4> = Reader::new();
    assert_eq!(reader.deserialize(&Shape::Str, b"too long"), Err(de::Error::Overflow));
    assert_eq!(reader.deserialize(&Shape::Unit, b"x"), Err(de::Error::ExpectedEmpty));
    assert_eq!(
        reader.deserialize(&Shape::UnitStruct(String::from("R")), b"R"),
        Err(de::Error::ExpectedEmpty)
    );
    assert_eq!(reader.deserialize(&Shape::Bool, b"True"), Err(de::Error::InvalidBool));
    assert_eq!(reader.deserialize(&Shape::U8, b"-1"), Err(de::Error::InvalidInt));
    assert_eq!(reader.deserialize(&Shape::Char, b"\xff"), Err(de::Error::InvalidUtf8Char));
    assert_eq!(reader.deserialize(&Shape::Char, b""), Err(de::Error::InvalidUtf8Char));
    assert_eq!(reader.deserialize(&Shape::Str, b"\xff"), Err(de::Error::InvalidUtf8String));
    let mut reader: Reader<8> = Reader::new();
    assert_eq!(
        reader.deserialize(&Shape::Tuple(vec![Shape::Bool, Shape::Bool]), b"true\n"),
        Err(de::Error::Custom)
    );
}

#[test]
fn errors_describe_themselves() {
    assert_eq!(ser::Error::Overflow.to_string(), "Buffer overflow");
    assert_eq!(de::Error::Overflow.to_string(), "Buffer overflow.");
    assert_eq!(de::Error::ExpectedEmpty.to_string(), "Expected an empty field.");
    assert_eq!(
        de::Error::InvalidBool.to_string(),
        "Invalid boolean value. Expected either `true` or `false`."
    );
    assert_eq!(de::Error::InvalidInt.to_string(), "Invalid integer.");
    assert_eq!(de::Error::InvalidFloat.to_string(), "Invalid floating-point number.");
    assert_eq!(de::Error::InvalidUtf8Char.to_string(), "Invalid UTF-8 encoded character.");
    assert_eq!(de::Error::InvalidUtf8String.to_string(), "Invalid UTF-8 encoded string.");
    assert_eq!(
        de::Error::Custom.to_string(),
        "CSV does not match deserializer's expected format."
    );
}

#[test]
fn the_serializer_writes_leaf_by_leaf() {
    let writer = Writer::new();
    let mut buf = [0u8; 64];
    let mut serializer = Serializer::new(&writer, &mut buf);
    assert_eq!(serializer.bytes_written(), 0);
    serializer.serialize_bool(true).unwrap();
    assert_eq!(serializer.bytes_written(), 4);
    serializer.serialize_bool(false).unwrap();
    serializer.serialize_i8(-8).unwrap();
    serializer.serialize_i16(-16).unwrap();
    serializer.serialize_i32(-32).unwrap();
    serializer.serialize_i64(-64).unwrap();
    serializer.serialize_u8(8).unwrap();
    serializer.serialize_u16(16).unwrap();
    serializer.serialize_u32(32).unwrap();
    serializer.serialize_u64(64).unwrap();
    serializer.serialize_char('ą').unwrap();
    serializer.serialize_str("s").unwrap();
    serializer.serialize_bytes(b"b").unwrap();
    serializer.serialize_none().unwrap();
    serializer.serialize_unit().unwrap();
    serializer.serialize_unit_struct("U").unwrap();
    serializer.serialize_unit_variant("E", 1, "V").unwrap();
    serializer.serialize_some(&Value::I32(1)).unwrap();
    serializer.serialize_newtype_struct("N", &Value::I32(2)).unwrap();
    serializer.terminator().unwrap();
    let n = serializer.bytes_written();
    assert_eq!(
        std::str::from_utf8(&buf[..n]).unwrap(),
        "true,false,-8,-16,-32,-64,8,16,32,64,ą,s,b,,,,V,1,2\n"
    );
}

#[test]
fn the_serializer_can_go_on_with_a_second_record() {
    let writer = Writer::new();
    let mut buf = [0u8; 16];
    let mut serializer = Serializer::new(&writer, &mut buf);
    serializer.serialize_u8(1).unwrap();
    serializer.serialize_u8(2).unwrap();
    serializer.terminator().unwrap();
    serializer.serialize_str("a,b").unwrap();
    serializer.terminator().unwrap();
    let n = serializer.bytes_written();
    assert_eq!(&buf[..n], b"1,2\n\"a,b\"\n");
}

#[test]
fn the_deserializer_reads_leaf_by_leaf() {
    let input = "true,-8,-16,-32,-64,8,16,32,64,ą,s,b,,,V,x,last\n".as_bytes();
    let mut reader: Reader<8> = Reader::new();
    let mut deserializer = Deserializer::new(&mut reader, input);
    assert_eq!(deserializer.bytes_read(), 0);
    assert_eq!(deserializer.deserialize_bool(), Ok(true));
    assert_eq!(deserializer.bytes_read(), 5);
    assert_eq!(deserializer.deserialize_i8(), Ok(-8));
    assert_eq!(deserializer.deserialize_i16(), Ok(-16));
    assert_eq!(deserializer.deserialize_i32(), Ok(-32));
    assert_eq!(deserializer.deserialize_i64(), Ok(-64));
    assert_eq!(deserializer.deserialize_u8(), Ok(8));
    assert_eq!(deserializer.deserialize_u16(), Ok(16));
    assert_eq!(deserializer.deserialize_u32(), Ok(32));
    assert_eq!(deserializer.deserialize_u64(), Ok(64));
    assert_eq!(deserializer.deserialize_char(), Ok('ą'));
    assert_eq!(deserializer.deserialize_str(), Ok("s"));
    assert_eq!(deserializer.deserialize_bytes(), Ok(&b"b"[..]));
    assert_eq!(deserializer.deserialize_option(), Ok(false));
    assert_eq!(deserializer.deserialize_unit(), Ok(()));
    let names = vec![String::from("U"), String::from("V")];
    assert_eq!(deserializer.deserialize_enum(&names), Ok(1));
    assert_eq!(deserializer.deserialize_ignored_any(), Ok(()));
    assert!(!deserializer.record_end());
    assert_eq!(deserializer.deserialize_option(), Ok(true));
    assert_eq!(deserializer.peek_bytes(), Ok(&b"last"[..]));
    assert_eq!(deserializer.read_bytes(), Ok(&b"last"[..]));
    assert!(deserializer.record_end());
    assert_eq!(deserializer.next_element(&Shape::Unit), Ok(None));
    assert_eq!(deserializer.bytes_read(), input.len());
}

#[test]
fn the_end_of_a_record_stays_seen() {
    let input = b"1\n2,3\n";
    let mut reader: Reader<8> = Reader::new();
    let mut deserializer = Deserializer::new(&mut reader, input);
    assert!(!deserializer.record_end());
    assert_eq!(deserializer.deserialize_i32(), Ok(1));
    assert!(deserializer.record_end());
    assert_eq!(deserializer.next_element(&Shape::I32), Ok(None));
    assert_eq!(deserializer.deserialize_i32(), Ok(2));
    assert!(deserializer.record_end());
    assert_eq!(deserializer.bytes_read(), 4);
}

#[test]
fn a_new_writer_writes_the_default_dialect() {
    let value = Value::Tuple(vec![text("a,b"), text("say \"hi\""), text("two\nlines"), Value::I32(1)]);
    let expected = b"\"a,b\",\"say \"\"hi\"\"\",\"two\nlines\",1\n";
    let mut buf = [0u8; 64];
    let n = Writer::new().serialize(&value, &mut buf).unwrap();
    assert_eq!(&buf[..n], &expected[..]);
    let mut buf = [0u8; 64];
    let n = Writer::default().serialize(&value, &mut buf).unwrap();
    assert_eq!(&buf[..n], &expected[..]);
    let mut buf = [0u8; 64];
    let mut built = Writer::from_builder(&csv_core::WriterBuilder::new());
    let n = built.serialize(&value, &mut buf).unwrap();
    assert_eq!(&buf[..n], &expected[..]);
}

#[test]
fn a_new_reader_reads_the_default_dialect() {
    let shape = Shape::Tuple(vec![Shape::Str, Shape::Str, Shape::I32]);
    let value = Value::Tuple(vec![text("a,b"), text("say \"hi\""), Value::I32(1)]);
    for input in [
        &b"\"a,b\",\"say \"\"hi\"\"\",1\n"[..],
        &b"\"a,b\",\"say \"\"hi\"\"\",1\r\n"[..],
        &b"\"a,b\",\"say \"\"hi\"\"\",1\r"[..],
    ] {
        let mut reader: Reader<16> = Reader::new();
        let (read, _) = reader.deserialize(&shape, input).unwrap();
        assert_eq!(read, value);
        let mut reader: Reader<16> = Reader::default();
        let (read, _) = reader.deserialize(&shape, input).unwrap();
        assert_eq!(read, value);
        let mut reader: Reader<16> = Reader::from_builder(&csv_core::ReaderBuilder::new());
        let (read, _) = reader.deserialize(&shape, input).unwrap();
        assert_eq!(read, value);
    }
}

#[test]
fn a_list_behind_a_look_ahead_takes_the_whole_record() {
    let shape = Shape::Optional(Box::new(Shape::List(Box::new(Shape::I32))));
    let mut reader: Reader<4> = Reader::new();
    assert_eq!(
        reader.deserialize(&shape, b"5,6\n"),
        Ok((Value::Present(Box::new(Value::List(vec![Value::I32(5), Value::I32(6)]))), 4))
    );
    assert_eq!(
        reader.deserialize(&shape, b"5,6,7\n8\n"),
        Ok((
            Value::Present(Box::new(Value::List(vec![Value::I32(5), Value::I32(6), Value::I32(7)]))),
            6
        ))
    );
    let pairs = Shape::Optional(Box::new(Shape::Tuple(vec![Shape::I32, Shape::I32])));
    assert_eq!(
        reader.deserialize(&pairs, b"5,6\n"),
        Ok((Value::Present(Box::new(Value::Tuple(vec![Value::I32(5), Value::I32(6)]))), 4))
    );
    assert_eq!(reader.deserialize(&shape, b"\n"), Ok((Value::Absent, 1)));
}

#[test]
fn a_unit_struct_reads_back() {
    let record = Value::UnitStruct(String::from("Record"));
    let mut writer = Writer::new();
    let mut buf = [0u8; 32];
    assert_eq!(writer.serialize(&record, &mut buf), Ok(3));
    assert_eq!(&buf[..3], b"\"\"\n");
    let mut reader: Reader<8> = Reader::new();
    assert_eq!(
        reader.deserialize(&Shape::UnitStruct(String::from("Record")), &buf[..3]),
        Ok((record, 3))
    );
}

#[test]
fn a_record_does_not_depend_on_what_the_buffer_held() {
    let value = Value::Tuple(vec![text("a,b"), Value::I32(7), Value::Unit]);
    let mut zeros = [0u8; 24];
    let mut ones = [0xffu8; 24];
    let n = Writer::new().serialize(&value, &mut zeros).unwrap();
    let m = Writer::new().serialize(&value, &mut ones).unwrap();
    assert_eq!(n, m);
    assert_eq!(&zeros[..n], &ones[..m]);
    assert!(zeros[n..].iter().all(|b| *b == 0));
    assert!(ones[m..].iter().all(|b| *b == 0xff));
}
