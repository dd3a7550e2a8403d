use nabu::ast::{Expression, Literal, QualifiedIdentifier, Statement};
use nabu::column::ColumnType;
use nabu::database::Database;
use nabu::error::Error;
use nabu::lexer::LexerContext;
use nabu::parser::ParserContext;
use nabu::plans::{structure, LogicalPlan};
use nabu::query::{check_value, resolve, ResolvedStatement};
use nabu::table::TableBuilder;
use nabu::value::DataType;

fn db() -> Database {
    let mut db = Database::memory().unwrap();
    db.create_table(
        TableBuilder::new("users").column("id", ColumnType::Number).column("name", ColumnType::Varchar(8)),
    )
    .unwrap();
    db.create_table(
        TableBuilder::new("orders").column("id", ColumnType::Number).column("user_id", ColumnType::Number),
    )
    .unwrap();
    db
}

fn statement(sql: &str) -> Statement {
    let tokens = LexerContext::lex(sql).unwrap();
    ParserContext::parse(&tokens).unwrap()
}

#[test]
fn resolve_select_finds_columns() {
    let db = db();
    let resolved = resolve(statement("SELECT name FROM users WHERE id == 1"), &db).unwrap();
    match resolved {
        ResolvedStatement::Select { schema, columns, filter, .. } => {
            assert_eq!(schema.table_name.as_deref(), Some("users"));
            assert_eq!(columns.len(), 1);
            assert_eq!(columns[0].name, "name");
            assert!(filter.is_some());
        },
        _ => panic!("Expected Select"),
    }
}

#[test]
fn resolve_unknown_table() {
    let db = db();
    let result = resolve(statement("SELECT name FROM nobody"), &db);
    assert!(matches!(result, Err(Error::TableNotFound(ref t)) if t == "nobody"));
}

#[test]
fn resolve_unknown_column() {
    let db = db();
    let result = resolve(statement("SELECT age FROM users"), &db);
    assert!(matches!(result, Err(Error::ColumnNotFound(ref c)) if c == "age"));
}

#[test]
fn resolve_insert_checks_values() {
    let db = db();
    assert!(resolve(statement("INSERT (1, \"bob\") INTO users"), &db).is_ok());
    let wrong_count = resolve(statement("INSERT (1) INTO users"), &db);
    assert!(matches!(wrong_count, Err(Error::WrongColumnCount { expected: 2, got: 1 })));
    let wrong_type = resolve(statement("INSERT (\"x\", \"bob\") INTO users"), &db);
    assert!(matches!(wrong_type, Err(Error::TypeMismatch { expected: DataType::Float64, got: DataType::Utf8 })));
    let too_long = resolve(statement("INSERT (1, \"abcdefghij\") INTO users"), &db);
    assert!(matches!(too_long, Err(Error::VarcharTooLong { max: 8, got: 10 })));
}

#[test]
fn resolve_filter_type_mismatch() {
    let db = db();
    let result = resolve(statement("SELECT name FROM users WHERE name + 1"), &db);
    assert!(matches!(result, Err(Error::TypeMismatch { .. })));
}

#[test]
fn check_value_formulas() {
    assert!(check_value(&Literal::Float64("1".to_string()), &DataType::Float64).is_ok());
    assert!(check_value(&Literal::Utf8("abc".to_string()), &DataType::FixedSizeBinary(3)).is_ok());
    assert!(matches!(
        check_value(&Literal::Utf8("abcd".to_string()), &DataType::FixedSizeBinary(3)),
        Err(Error::VarcharTooLong { max: 3, got: 4 })
    ));
    assert!(matches!(
        check_value(&Literal::Boolean(true), &DataType::Float64),
        Err(Error::TypeMismatch { expected: DataType::Float64, got: DataType::Boolean })
    ));
}

#[test]
fn plan_of_select_with_join() {
    let db = db();
    let resolved =
        resolve(statement("SELECT users.name FROM users JOIN orders ON users.id == orders.user_id LIMIT 3"), &db)
            .unwrap();
    let plan = structure(resolved).unwrap();
    match plan {
        LogicalPlan::Limit { limit, input, .. } => {
            assert_eq!(limit, Some(3));
            match *input {
                LogicalPlan::Projection { input, .. } => {
                    assert!(matches!(*input, LogicalPlan::Join { .. }));
                },
                _ => panic!("Expected Projection"),
            }
        },
        _ => panic!("Expected Limit"),
    }
}

#[test]
fn plan_of_insert() {
    let db = db();
    let plan = structure(resolve(statement("INSERT (1, \"bob\") INTO users"), &db).unwrap()).unwrap();
    assert!(matches!(plan, LogicalPlan::Insert { ref table_name, .. } if table_name == "users"));
}

#[test]
fn unqualified_identifier_builds() {
    let id = QualifiedIdentifier { qualifier: None, name: "x".to_string() };
    let e = Expression::Identifier(id);
    assert!(matches!(e, Expression::Identifier(_)));
}
