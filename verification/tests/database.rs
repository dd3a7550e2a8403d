use nabu::column::ColumnType;
use nabu::database::Database;
use nabu::error::Error;
use nabu::magic::DatabaseHeader;
use nabu::pager::{Page, Pager};
use nabu::query::Catalog;
use nabu::table::TableBuilder;

fn users() -> TableBuilder {
    TableBuilder::new("users").column("id", ColumnType::Number).column("name", ColumnType::Varchar(64))
}

fn stored_pages(pager: &mut Pager, n: usize) -> Vec<Page> {
    let mut pages = Vec::new();
    for i in 0..n {
        let data = pager.get_page(i).unwrap().data;
        pages.push(Page { data });
    }
    pages
}

#[test]
fn memory_database_creates_tables() {
    let mut db = Database::memory().unwrap();
    assert!(!db.table_exists("users"));
    db.create_table(users()).unwrap();
    assert!(db.table_exists("users"));
    assert_eq!(db.tables.len(), 1);
    let table = db.get_table("users").unwrap();
    assert_eq!(table.columns.len(), 6);
    let user_cols = table.user_columns();
    assert_eq!(user_cols.len(), 2);
    assert_eq!(user_cols[0].name, "id");
    assert_eq!(user_cols[1].name, "name");
    let schema = db.get_schema("users").unwrap();
    assert_eq!(schema.fields.len(), 2);
    assert_eq!(schema.table_name.as_deref(), Some("users"));
    assert_eq!(db.get_schemas().len(), 1);
}

#[test]
fn duplicate_table_is_refused() {
    let mut db = Database::memory().unwrap();
    db.create_table(users()).unwrap();
    let result = db.create_table(users());
    assert!(matches!(result, Err(Error::DuplicateTable(ref n)) if n == "users"));
    assert_eq!(db.tables.len(), 1);
    assert_eq!(db.schemas.len(), 1);
}

#[test]
fn builder_errors_reach_create_table() {
    let mut db = Database::memory().unwrap();
    assert!(matches!(db.create_table(TableBuilder::new("empty")), Err(Error::NoColumns)));
    let bad = TableBuilder::new("bad").column("_x", ColumnType::Number);
    assert!(matches!(db.create_table(bad), Err(Error::ReservedColumnName(_))));
    assert_eq!(db.tables.len(), 0);
}

#[test]
fn new_database_writes_a_header() {
    let mut db = Database::new(Pager::memory()).unwrap();
    assert_eq!(db.tables.len(), 0);
    let root = db.system_table.root_page();
    let page = db.pager.get_page(0).unwrap();
    let header = DatabaseHeader::deserialize(&page.data).unwrap();
    assert_eq!(header.system_table_page, root);
    assert_eq!(header.version, 1);
    assert_eq!(header.page_size, 4096);
}

#[test]
fn test_database_create_and_load() {
    let (mut pager, next) = {
        let mut db = Database::new(Pager::memory()).unwrap();
        assert_eq!(db.system_table.root_page(), 1);
        db.create_table(users()).unwrap();
        assert!(db.table_exists("users"));
        assert_eq!(db.tables.len(), 1);
        let next = db.system_table.root_page() + 2;
        (db.pager, next)
    };
    let pages = stored_pages(&mut pager, next);
    let db = Database::new(Pager::load(pages, next)).unwrap();
    assert!(db.table_exists("users"));
    assert_eq!(db.tables.len(), 1);
    let table = db.get_table("users").unwrap();
    assert_eq!(table.columns.len(), 6);
    let user_cols = table.user_columns();
    assert_eq!(user_cols.len(), 2);
    assert_eq!(user_cols[0].name, "id");
    assert_eq!(user_cols[1].name, "name");
    assert_eq!(db.get_schemas().len(), 1);
}

