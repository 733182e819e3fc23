use serde_csv_core::value::Value;
use serde_csv_core::Writer;

fn numbers(values: &[i32]) -> Vec<Value> {
    values.iter().map(|v| Value::I32(*v)).collect()
}

fn to_slice(writer: &mut Writer, data: &Value, buf: &mut [u8]) -> usize {
    writer.serialize(data, buf).unwrap()
}

#[test]
fn main_serialize_unit() {
    let data = Value::Unit;

    let mut writer = Writer::from_builder(&csv_core::WriterBuilder::new());
    let mut buf = [0; 32];
    let nwritten = to_slice(&mut writer, &data, &mut buf);
    let record = std::str::from_utf8(&buf[..nwritten]).unwrap();

    assert_eq!(record, "\"\"\n");
}

#[test]
fn main_serialize_pair_units() {
    let data = Value::Tuple(vec![Value::Unit, Value::Unit]);

    let mut writer = Writer::from_builder(&csv_core::WriterBuilder::new());
    let mut buf = [0; 32];
    let nwritten = to_slice(&mut writer, &data, &mut buf);
    let record = std::str::from_utf8(&buf[..nwritten]).unwrap();

    assert_eq!(record, ",\n");
}

#[test]
fn main_serialize_none() {
    let data = Value::Absent;

    let mut writer = Writer::from_builder(&csv_core::WriterBuilder::new());
    let mut buf = [0; 32];
    let nwritten = to_slice(&mut writer, &data, &mut buf);
    let record = std::str::from_utf8(&buf[..nwritten]).unwrap();

    assert_eq!(record, "\"\"\n");
}

#[test]
fn main_serialize_some() {
    let data = Value::Absent;

    let mut writer = Writer::from_builder(&csv_core::WriterBuilder::new());
    let mut buf = [0; 32];
    let nwritten = to_slice(&mut writer, &data, &mut buf);
    let record = std::str::from_utf8(&buf[..nwritten]).unwrap();

    assert_eq!(record, "\"\"\n");
}

#[test]
fn main_serialize_empty_slice() {
    let data = Value::List(numbers(&[]));

    let mut writer = Writer::from_builder(&csv_core::WriterBuilder::new());
    let mut buf = [0; 32];
    let nwritten = to_slice(&mut writer, &data, &mut buf);
    let record = std::str::from_utf8(&buf[..nwritten]).unwrap();

    assert_eq!(record, "\"\"\n");
}

#[test]
fn main_serialize_slice() {
    let data = Value::List(numbers(&[0, 1, 2, 3]));

    let mut writer = Writer::from_builder(&csv_core::WriterBuilder::new());
    let mut buf = [0; 32];
    let nwritten = to_slice(&mut writer, &data, &mut buf);
    let record = std::str::from_utf8(&buf[..nwritten]).unwrap();

    assert_eq!(record, "0,1,2,3\n");
}

#[test]
fn main_serialize_string_with_comma() {
    let data = Value::Str(String::from("a,b,c"));

    let mut writer = Writer::from_builder(&csv_core::WriterBuilder::new());
    let mut buf = [0; 32];
    let nwritten = to_slice(&mut writer, &data, &mut buf);
    let record = std::str::from_utf8(&buf[..nwritten]).unwrap();

    assert_eq!(record, "\"a,b,c\"\n");
}

#[test]
fn main_serialize_compound() {
    let data = Value::Struct(vec![
        Value::Tuple(numbers(&[0, 1])),
        Value::Tuple(numbers(&[2, 3, 4, 5])),
        Value::Struct(numbers(&[6, 7])),
    ]);

    let mut writer = Writer::from_builder(&csv_core::WriterBuilder::new());
    let mut buf = [0; 32];
    let nwritten = to_slice(&mut writer, &data, &mut buf);
    let record = std::str::from_utf8(&buf[..nwritten]).unwrap();

    assert_eq!(record, "0,1,2,3,4,5,6,7\n");
}
