use serde_csv_core::value::Value;
use serde_csv_core::Writer;

fn numbers(values: &[i32]) -> Vec<Value> {
    values.iter().map(|v| Value::I32(*v)).collect()
}

#[test]
fn ser_serialize_unit() {
    let data = Value::Unit;

    let mut writer = Writer::new();
    let mut buf = [0; 32];
    let nwritten = writer.serialize(&data, &mut buf).unwrap();
    let record = std::str::from_utf8(&buf[..nwritten]).unwrap();

    assert_eq!(record, "\"\"\n");
}

#[test]
fn ser_serialize_pair_units() {
    let data = Value::Tuple(vec![Value::Unit, Value::Unit]);

    let mut writer = Writer::new();
    let mut buf = [0; 32];
    let nwritten = writer.serialize(&data, &mut buf).unwrap();
    let record = std::str::from_utf8(&buf[..nwritten]).unwrap();

    assert_eq!(record, ",\n");
}

#[test]
fn ser_serialize_none() {
    let data = Value::Absent;

    let mut writer = Writer::new();
    let mut buf = [0; 32];
    let nwritten = writer.serialize(&data, &mut buf).unwrap();
    let record = std::str::from_utf8(&buf[..nwritten]).unwrap();

    assert_eq!(record, "\"\"\n");
}

#[test]
fn ser_serialize_some() {
    let data = Value::Absent;

    let mut writer = Writer::new();
    let mut buf = [0; 32];
    let nwritten = writer.serialize(&data, &mut buf).unwrap();
    let record = std::str::from_utf8(&buf[..nwritten]).unwrap();

    assert_eq!(record, "\"\"\n");
}

#[test]
fn ser_serialize_empty_slice() {
    let data = Value::List(numbers(&[]));

    let mut writer = Writer::new();
    let mut buf = [0; 32];
    let nwritten = writer.serialize(&data, &mut buf).unwrap();
    let record = std::str::from_utf8(&buf[..nwritten]).unwrap();

    assert_eq!(record, "\"\"\n");
}

#[test]
fn ser_serialize_slice() {
    let data = Value::List(numbers(&[0, 1, 2, 3]));

    let mut writer = Writer::new();
    let mut buf = [0; 32];
    let nwritten = writer.serialize(&data, &mut buf).unwrap();
    let record = std::str::from_utf8(&buf[..nwritten]).unwrap();

    assert_eq!(record, "0,1,2,3\n");
}

#[test]
fn ser_serialize_string_with_comma() {
    let data = Value::Str(String::from("a,b,c"));

    let mut writer = Writer::new();
    let mut buf = [0; 32];
    let nwritten = writer.serialize(&data, &mut buf).unwrap();
    let record = std::str::from_utf8(&buf[..nwritten]).unwrap();

    assert_eq!(record, "\"a,b,c\"\n");
}

#[test]
fn ser_serialize_compound() {
    let data = Value::Struct(vec![
        Value::Tuple(numbers(&[0, 1])),
        Value::Tuple(numbers(&[2, 3, 4, 5])),
        Value::Struct(numbers(&[6, 7])),
    ]);

    let mut writer = Writer::new();
    let mut buf = [0; 32];
    let nwritten = writer.serialize(&data, &mut buf).unwrap();
    let record = std::str::from_utf8(&buf[..nwritten]).unwrap();

    assert_eq!(record, "0,1,2,3,4,5,6,7\n");
}

#[test]
fn serialize_enum() {
    let data_a = Value::UnitVariant(String::from("A"));
    let data_b = Value::UnitVariant(String::from("B"));

    let mut writer = Writer::new();
    let mut buf = [0; 32];

    let nwritten = writer.serialize(&data_a, &mut buf).unwrap();
    let record = std::str::from_utf8(&buf[..nwritten]).unwrap();
    assert_eq!(record, "A\n");

    let nwritten = writer.serialize(&data_b, &mut buf).unwrap();
    let record = std::str::from_utf8(&buf[..nwritten]).unwrap();
    assert_eq!(record, "B\n");
}
