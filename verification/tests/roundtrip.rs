use nabu::column::{Column, ColumnType};
use nabu::field::{deserialize_data_type, parse_field, serialize_data_type, serialize_field, Field};
use nabu::magic::DatabaseHeader;
use nabu::number::{number_to_usize, usize_to_number};
use nabu::value::{DataType, Value};

#[test]
fn column_type_text_roundtrip() {
    for t in [ColumnType::Number, ColumnType::Varchar(32), ColumnType::Bool, ColumnType::Bytes(16)] {
        let text = t.to_text();
        assert_eq!(ColumnType::parse(&text).unwrap(), t);
    }
    assert_eq!(ColumnType::Varchar(32).to_text(), "v32");
    assert!(ColumnType::parse("FLOAT").is_err());
}

#[test]
fn column_text_roundtrip() {
    let c = Column::new("age".to_string(), ColumnType::Number);
    let back = Column::parse(&c.to_text()).unwrap();
    assert_eq!(back.name, "age");
    assert_eq!(back.column_type, ColumnType::Number);
    assert_eq!(back.column_size, 8);
}

#[test]
fn field_text_roundtrip() {
    let f = Column::new("name".to_string(), ColumnType::Varchar(64)).to_field();
    let text = serialize_field(&f);
    let back: Field = parse_field(&text).unwrap();
    assert_eq!(back.name, f.name);
    assert_eq!(back.data_type, f.data_type);
    assert_eq!(back.size, f.size);
    assert!(parse_field("no colons here").is_err());
}

#[test]
fn data_type_text_roundtrip() {
    for dt in [DataType::Boolean, DataType::Float64, DataType::Utf8, DataType::Binary, DataType::FixedSizeBinary(12)] {
        assert_eq!(deserialize_data_type(&serialize_data_type(&dt)).unwrap(), dt);
    }
}

#[test]
fn number_roundtrip() {
    for n in [0usize, 1, 2, 3, 1000, 123456789, (1usize << 53) - 1] {
        let bits = usize_to_number(n);
        assert_eq!(f64::from_bits(bits), n as f64);
        assert_eq!(number_to_usize(bits), n);
    }
    assert_eq!(number_to_usize((-3.5f64).to_bits()), 0);
    assert_eq!(number_to_usize(2.75f64.to_bits()), 2);
}

#[test]
fn header_roundtrip() {
    let mut page = [0u8; 4096];
    let header = DatabaseHeader::new(7);
    header.serialize(7, &mut page).unwrap();
    assert_eq!(&page[0..4], b"RSDB");
    let back = DatabaseHeader::deserialize(&page).unwrap();
    assert_eq!(back.system_table_page, 7);
    assert_eq!(back.version, 1);
    assert_eq!(back.page_size, 4096);
    let blank = [0u8; 16];
    assert!(DatabaseHeader::deserialize(&blank).is_none());
}

#[test]
fn value_order_and_serialization() {
    let a = Value::Utf8("apple".to_string());
    let b = Value::Utf8("banana".to_string());
    assert!(a.leq(&b));
    assert!(!b.leq(&a));
    assert!(Value::Null.leq(&a));
    let mut buf = [0u8; 8];
    Value::Float64(2.5f64.to_bits()).serialize(&mut buf, 8);
    assert_eq!(buf, 2.5f64.to_le_bytes());
    let f = Column::new("x".to_string(), ColumnType::Number).to_field();
    assert_eq!(Value::deserialize(&buf, &f), Value::Float64(2.5f64.to_bits()));
}
