use serde_csv_core::de::{Error, Reader};
use serde_csv_core::value::{Shape, Value};

#[test]
fn bool_true() {
    let input = b"true";
    let mut reader: Reader<4> = Reader::new();

    let result = reader.deserialize(&Shape::Bool, &input[..]);

    assert_eq!(result, Ok((Value::Bool(true), 4)))
}

#[test]
fn bool_false() {
    let input = b"false";
    let mut reader: Reader<5> = Reader::new();

    let result = reader.deserialize(&Shape::Bool, &input[..]);

    assert_eq!(result, Ok((Value::Bool(false), 5)))
}

#[test]
fn bool_empty() {
    let input = b"";
    let mut reader: Reader<0> = Reader::new();

    let result = reader.deserialize(&Shape::Bool, &input[..]);

    assert_eq!(result, Err(Error::InvalidBool))
}

#[test]
fn bool_overflow() {
    let input = b"overflow";
    let mut reader: Reader<3> = Reader::new();

    let result = reader.deserialize(&Shape::Bool, &input[..]);

    assert_eq!(result, Err(Error::Overflow))
}

#[test]
fn i8_positive() {
    let input = b"123";
    let mut reader: Reader<3> = Reader::new();

    let result = reader.deserialize(&Shape::I8, &input[..]);

    assert_eq!(result, Ok((Value::I8(123), 3)))
}

#[test]
fn i8_negative() {
    let input = b"-123";
    let mut reader: Reader<4> = Reader::new();

    let result = reader.deserialize(&Shape::I8, &input[..]);

    assert_eq!(result, Ok((Value::I8(-123), 4)))
}

#[test]
fn i8_invalid() {
    let input = b"256";
    let mut reader: Reader<3> = Reader::new();

    let result = reader.deserialize(&Shape::I8, &input[..]);

    assert_eq!(result, Err(Error::InvalidInt))
}

#[test]
fn char_valid() {
    let input = b"\xc4\x85";
    let mut reader: Reader<2> = Reader::new();

    let result = reader.deserialize(&Shape::Char, &input[..]);

    assert_eq!(result, Ok((Value::Char('ą'), 2)))
}

#[test]
fn char_invalid() {
    let input = b"\xc4\x85\xc4\x85";
    let mut reader: Reader<4> = Reader::new();

    let result = reader.deserialize(&Shape::Char, &input[..]);

    assert_eq!(result, Err(Error::InvalidUtf8Char))
}

#[test]
fn visit_str() {
    let input = b"192.168.0.1";
    let mut reader: Reader<11> = Reader::new();

    let result = reader.deserialize(&Shape::Str, &input[..]);

    assert_eq!(result, Ok((Value::Str(String::from("192.168.0.1")), 11)))
}

#[test]
fn visit_dynamically_allocated_string() {
    let input = b"hello";
    let mut reader: Reader<5> = Reader::new();

    let result = reader.deserialize(&Shape::Str, &input[..]);

    assert_eq!(result, Ok((Value::Str(String::from("hello")), 5)))
}

#[test]
fn some() {
    let input = b"123";
    let mut reader: Reader<3> = Reader::new();

    let result = reader.deserialize(&Shape::Optional(Box::new(Shape::I32)), &input[..]);

    assert_eq!(result, Ok((Value::Present(Box::new(Value::I32(123))), 3)))
}

#[test]
fn none() {
    let input = b"";
    let mut reader: Reader<0> = Reader::new();

    let result = reader.deserialize(&Shape::Optional(Box::new(Shape::I32)), &input[..]);

    assert_eq!(result, Ok((Value::Absent, 0)))
}

#[test]
fn unit_valid() {
    let input = b"";
    let mut reader: Reader<0> = Reader::new();

    let result = reader.deserialize(&Shape::Unit, &input[..]);

    assert_eq!(result, Ok((Value::Unit, 0)))
}

#[test]
fn unit_invalid() {
    let input = b"abcd";
    let mut reader: Reader<4> = Reader::new();

    let result = reader.deserialize(&Shape::Unit, &input[..]);

    assert_eq!(result, Err(Error::ExpectedEmpty))
}

#[test]
fn empty_records() {
    let input = b",,,";
    let mut reader: Reader<1> = Reader::new();

    let result = reader.deserialize(&Shape::Tuple(vec![Shape::I32, Shape::I32]), &input[..]);

    assert_eq!(result, Err(Error::InvalidInt))
}

#[test]
fn struct_0() {
    let record = Shape::UnitStruct(String::from("Record"));

    let input = b"";
    let mut reader: Reader<0> = Reader::new();

    let result = reader.deserialize(&record, &input[..]);

    assert_eq!(result, Ok((Value::UnitStruct(String::from("Record")), 0)))
}

#[test]
fn struct_2() {
    let record = Shape::Struct(vec![Shape::I8, Shape::I8]);

    let input = b"0,1";
    let mut reader: Reader<2> = Reader::new();

    let result = reader.deserialize(&record, &input[..]);

    assert_eq!(result, Ok((Value::Struct(vec![Value::I8(0), Value::I8(1)]), 3)))
}

#[test]
fn c_enum() {
    let record = Shape::Variant(vec![String::from("A"), String::from("B"), String::from("C")]);

    let input = b"B";
    let mut reader: Reader<1> = Reader::new();

    let result = reader.deserialize(&record, &input[..]);

    assert_eq!(result, Ok((Value::UnitVariant(String::from("B")), 1)))
}

fn data_shape() -> Shape {
    Shape::Struct(vec![
        Shape::Tuple(vec![Shape::I32, Shape::I32]),
        Shape::Tuple(vec![Shape::I32, Shape::I32, Shape::I32, Shape::I32]),
        Shape::Struct(vec![Shape::I32, Shape::I32]),
    ])
}

#[test]
fn compound() {
    let input = b"0,1,2,3,4,5,6,7";
    let mut reader: Reader<2> = Reader::new();

    let result = reader.deserialize(&data_shape(), &input[..]);

    assert_eq!(
        result,
        Ok((
            Value::Struct(vec![
                Value::Tuple(vec![Value::I32(0), Value::I32(1)]),
                Value::Tuple(vec![Value::I32(2), Value::I32(3), Value::I32(4), Value::I32(5)]),
                Value::Struct(vec![Value::I32(6), Value::I32(7)]),
            ]),
            15
        ))
    );
}

#[test]
fn compound_missing_fields() {
    let input = b"0,1,2,3\n4,5,6,7\n";
    let mut reader: Reader<2> = Reader::new();

    let result = reader.deserialize(&data_shape(), &input[..]);

    assert_eq!(result, Err(Error::Custom));
}

#[test]
fn array_too_many_fields() {
    let input = b"0,1,2,3";
    let mut reader: Reader<2> = Reader::new();

    let result = reader.deserialize(&Shape::Tuple(vec![Shape::U8, Shape::U8, Shape::U8]), &input[..]);

    assert_eq!(
        result,
        Ok((Value::Tuple(vec![Value::U8(0), Value::U8(1), Value::U8(2)]), 6))
    );
}
