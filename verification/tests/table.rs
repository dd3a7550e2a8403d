use nabu::column::{Column, ColumnType};
use nabu::constants::NULL_BITMAP_SIZE;
use nabu::error::Error;
use nabu::field::Field;
use nabu::node::Node;
use nabu::pager::Pager;
use nabu::record::Record;
use nabu::table::{Table, TableBuilder, TableMetadata};
use nabu::value::Value;

fn num(n: f64) -> Value {
    Value::Float64(n.to_bits())
}

fn make_test_table(pager: &mut Pager) -> Table {
    TableBuilder::new("test")
        .column("name", ColumnType::Varchar(32))
        .column("age", ColumnType::Number)
        .build(pager)
        .unwrap()
}

fn system_values() -> Vec<Value> {
    vec![num(0.0), num(0.0), num(0.0), Value::Binary(vec![0u8; NULL_BITMAP_SIZE])]
}

fn user_row(id: f64, name: &str, age: f64) -> Record {
    let mut row = system_values();
    row[0] = num(id);
    row.extend([Value::Utf8(name.to_string()), num(age)]);
    Record(row)
}

#[test]
fn test_table_builder() {
    let mut pager = Pager::memory();
    let table = make_test_table(&mut pager);
    assert_eq!(table.name, "test");
    assert_eq!(table.columns.len(), 6);
    assert_eq!(table.key_column().name, "_rowid");
}

#[test]
fn test_table_builder_reserved_column() {
    let mut pager = Pager::memory();
    let result = TableBuilder::new("test").column("_secret", ColumnType::Number).build(&mut pager);
    assert!(matches!(result, Err(Error::ReservedColumnName(_))));
}

#[test]
fn test_table_builder_duplicate_column() {
    let mut pager = Pager::memory();
    let result = TableBuilder::new("test")
        .column("name", ColumnType::Varchar(32))
        .column("name", ColumnType::Number)
        .build(&mut pager);
    assert!(matches!(result, Err(Error::DuplicateColumn(_))));
}

#[test]
fn test_table_builder_no_columns() {
    let mut pager = Pager::memory();
    let result = TableBuilder::new("test").build(&mut pager);
    assert!(matches!(result, Err(Error::NoColumns)));
}

#[test]
fn test_table_builder_invalid_column_name() {
    for invalid_char in [
        '!', '@', '#', '$', '%', '^', '&', '*', '(', ')', '-', '=', '+', '[', ']', '{', '}', '|', '\\', ':', ';',
        '"', '\'', '<', '>', ',', '.', '/', '?', '`', '~',
    ] {
        let name = format!("col{}name", invalid_char);
        let mut pager = Pager::memory();
        let result = TableBuilder::new("test").column(&name, ColumnType::Number).build(&mut pager);
        assert!(
            matches!(result, Err(Error::InvalidColumnName { .. })),
            "expected InvalidColumnName for '{}', got {:?}",
            invalid_char,
            result.map(|t| t.name)
        );
    }
}

#[test]
fn test_serialize_deserialize_row() {
    let cols: Vec<Field> = vec![
        Column::new("id".to_string(), ColumnType::Number).to_field(),
        Column::new("name".to_string(), ColumnType::Varchar(8)).to_field(),
        Column::new("active".to_string(), ColumnType::Bool).to_field(),
    ];
    let col_refs: Vec<&Field> = cols.iter().collect();
    let row = Record(vec![num(42.0), Value::Utf8("hello".to_string()), Value::Boolean(true)]);
    let mut buf = vec![0u8; 17];
    row.serialize(&col_refs, &mut buf);
    let result = Record::deserialize(&col_refs, &buf);
    assert_eq!(result.0[0], num(42.0));
    assert_eq!(result.0[1], Value::Utf8("hello".to_string()));
    assert_eq!(result.0[2], Value::Boolean(true));
}

#[test]
fn test_empty_table_start_is_eot() {
    let mut pager = Pager::memory();
    let table = make_test_table(&mut pager);
    let empty_leaf = Node::Leaf { parent: None, cells: vec![], next_leaf: None };
    table.write_node(&mut pager, table.root_page(), &empty_leaf).unwrap();
    let cursor = table.start(&mut pager).unwrap();
    assert!(cursor.eot);
    assert_eq!(cursor.cell_num, 0);
}

#[test]
fn test_search_empty_table() {
    let mut pager = Pager::memory();
    let table = make_test_table(&mut pager);
    let empty_leaf = Node::Leaf { parent: None, cells: vec![], next_leaf: None };
    table.write_node(&mut pager, table.root_page(), &empty_leaf).unwrap();
    let (cursor, found) = table.search(&mut pager, &num(1.0)).unwrap();
    assert!(!found);
    assert!(cursor.eot);
}

#[test]
fn test_search_single_leaf() {
    let mut pager = Pager::memory();
    let table = make_test_table(&mut pager);
    let leaf = Node::Leaf {
        parent: None,
        cells: vec![
            (num(1.0), user_row(1.0, "alice", 30.0)),
            (num(2.0), user_row(2.0, "bob", 25.0)),
            (num(3.0), user_row(3.0, "carol", 35.0)),
        ],
        next_leaf: None,
    };
    table.write_node(&mut pager, table.root_page(), &leaf).unwrap();

    let (cursor, found) = table.search(&mut pager, &num(2.0)).unwrap();
    assert!(found);
    assert_eq!(cursor.cell_num, 1);
    assert!(!cursor.eot);

    let (cursor, found) = table.search(&mut pager, &num(1.5)).unwrap();
    assert!(!found);
    assert_eq!(cursor.cell_num, 1);

    let (cursor, found) = table.search(&mut pager, &num(10.0)).unwrap();
    assert!(!found);
    assert!(cursor.eot);
}

#[test]
fn insert_then_search_finds_the_row() {
    let mut pager = Pager::memory();
    let mut table = make_test_table(&mut pager);
    for (id, name, age) in [(3.0, "carol", 35.0), (1.0, "alice", 30.0), (2.0, "bob", 25.0)] {
        table.insert(&mut pager, &num(id), &user_row(id, name, age)).unwrap();
    }
    let (cursor, found) = table.search(&mut pager, &num(2.0)).unwrap();
    assert!(found);
    assert_eq!(cursor.cell_num, 1);
    let row = cursor.row(&mut pager).unwrap();
    assert_eq!(row.0[4], Value::Utf8("bob".to_string()));
    assert_eq!(row.0[5], num(25.0));
}

#[test]
fn insert_many_rows_splits_and_keeps_them() {
    let mut pager = Pager::memory();
    let mut table = make_test_table(&mut pager);
    for i in 0..200 {
        let id = ((i * 37) % 200) as f64;
        table.insert(&mut pager, &num(id), &user_row(id, "x", id)).unwrap();
    }
    assert_ne!(table.root_page(), 0);
    let (_, found) = table.search(&mut pager, &num(0.0)).unwrap();
    assert!(found);
    let mut cursor = table.start(&mut pager).unwrap();
    let mut count = 0;
    let mut last = -1.0f64;
    while !cursor.eot {
        let row = cursor.row(&mut pager).unwrap();
        let id = match row.0[0] {
            Value::Float64(bits) => f64::from_bits(bits),
            _ => panic!("key column is a number"),
        };
        assert!(id > last);
        last = id;
        count += 1;
        cursor.advance(&mut pager).unwrap();
    }
    assert_eq!(count, 200);
}

#[test]
fn delete_then_search_misses() {
    let mut pager = Pager::memory();
    let mut table = make_test_table(&mut pager);
    table.insert(&mut pager, &num(1.0), &user_row(1.0, "alice", 30.0)).unwrap();
    table.insert(&mut pager, &num(2.0), &user_row(2.0, "bob", 25.0)).unwrap();
    table.delete(&mut pager, &num(1.0)).unwrap();
    let (_, found) = table.search(&mut pager, &num(1.0)).unwrap();
    assert!(!found);
    let (_, found) = table.search(&mut pager, &num(2.0)).unwrap();
    assert!(found);
}

#[test]
fn metadata_row_reads_back() {
    let mut pager = Pager::memory();
    let table = make_test_table(&mut pager);
    let meta = TableMetadata::new(&table);
    let row = meta.to_row();
    let back = TableMetadata::from_row(&row).unwrap();
    assert_eq!(back.name, "test");
    assert_eq!(back.root_page, table.root_page());
    assert_eq!(back.user_columns.len(), 2);
    assert_eq!(back.user_columns.get_index(0).unwrap().0, "name");
    assert_eq!(back.user_columns.get_index(1).unwrap().0, "age");
    assert_eq!(back.primary_key_index, 0);
}

#[test]
fn metadata_row_of_wrong_type_is_corrupt() {
    let row = Record(vec![num(1.0), num(2.0), num(3.0), num(4.0)]);
    assert!(matches!(TableMetadata::from_row(&row), Err(Error::CorruptedTree(_))));
}

#[test]
fn table_name_too_long_is_refused() {
    let name = "t".repeat(65);
    let mut pager = Pager::memory();
    let result = TableBuilder::new(&name).column("a", ColumnType::Number).build(&mut pager);
    assert!(matches!(result, Err(Error::TableNameTooLong(65))));
}

#[test]
fn with_node_hands_the_stored_node() {
    let mut pager = Pager::memory();
    let mut table = make_test_table(&mut pager);
    table.insert(&mut pager, &num(1.0), &user_row(1.0, "alice", 30.0)).unwrap();
    let root = table.root_page();
    let count = table.with_node(&mut pager, root, |n: &Node| Ok(n.num_cells())).unwrap();
    assert_eq!(count, 1);
    let cursor = table.start(&mut pager).unwrap();
    let leaf = cursor.with_node(&mut pager, |n: &Node| Ok(n.is_leaf())).unwrap();
    assert!(leaf);
}

#[test]
fn search_after_splits_finds_every_key() {
    let mut pager = Pager::memory();
    let mut table = make_test_table(&mut pager);
    for i in 0..300 {
        let id = ((i * 37) % 300) as f64;
        table.insert(&mut pager, &num(id), &user_row(id, "x", id)).unwrap();
    }
    for i in 0..300 {
        let (cursor, found) = table.search(&mut pager, &num(i as f64)).unwrap();
        assert!(found, "key {} not found", i);
        let row = cursor.row(&mut pager).unwrap();
        assert_eq!(row.0[0], num(i as f64));
    }
    let (cursor, found) = table.search(&mut pager, &num(500.0)).unwrap();
    assert!(!found);
    assert!(cursor.eot);
    let (cursor, found) = table.search(&mut pager, &num(10.5)).unwrap();
    assert!(!found);
    assert!(!cursor.eot);
}

#[test]
fn table_new_puts_system_columns_first() {
    let mut pager = Pager::memory();
    let table = Table::new(
        "people".to_string(),
        vec![("name".to_string(), ColumnType::Varchar(16)), ("age".to_string(), ColumnType::Number)],
        &mut pager,
    )
    .unwrap();
    assert_eq!(table.name, "people");
    assert_eq!(table.columns.len(), 6);
    assert_eq!(table.key_column().name, "_rowid");
    let users = table.user_columns();
    assert_eq!(users[0].name, "name");
    assert_eq!(users[1].name, "age");
    assert!(table.get_user_column("_rowid").is_none());
    assert!(table.get_column("_rowid").is_some());
}
