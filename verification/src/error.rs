use vstd::prelude::*;

use crate::value::DataType;

verus! {

/// Every failure the library reports.
#[allow(inconsistent_fields)]
#[derive(Debug, Clone)]
pub enum Error {
    // Lexer
    UnterminatedString { row: usize, col: usize },
    InvalidCharacter { ch: char, row: usize, col: usize },
    // Parser
    UnexpectedToken { expected: String, got: String, row: usize, col: usize },
    UnexpectedEof { expected: String },
    Parse(String),
    // Binding
    TableNotFound(String),
    SchemaNotInScope(String),
    ColumnNotFound(String),
    ColumnNotFoundInSchema { column: String, schema: String },
    QualifierRequired { column: String },
    // Type checking
    TypeMismatch { expected: DataType, got: DataType },
    WrongColumnCount { expected: usize, got: usize },
    VarcharTooLong { max: usize, got: usize },
    // Table creation
    ReservedColumnName(String),
    InvalidColumnName { name: String, reason: String },
    DuplicateColumn(String),
    DuplicateTable(String),
    NoColumns,
    TableNameTooLong(usize),
    ColumnsTooLong(usize),
    // Storage
    OutOfBounds { index: usize, len: usize },
    CorruptedTree(String),
    WrongNodeType(String),
    IncorrectMagic(String),
    // Execution
    ColumnNotInRow(String),
    DivisionByZero,
}

/// An error with its texts as character sequences.
pub ghost enum ErrorV {
    UnterminatedString { row: usize, col: usize },
    InvalidCharacter { ch: char, row: usize, col: usize },
    UnexpectedToken { expected: Seq<char>, got: Seq<char>, row: usize, col: usize },
    UnexpectedEof { expected: Seq<char> },
    Parse(Seq<char>),
    TableNotFound(Seq<char>),
    SchemaNotInScope(Seq<char>),
    ColumnNotFound(Seq<char>),
    ColumnNotFoundInSchema { column: Seq<char>, schema: Seq<char> },
    QualifierRequired { column: Seq<char> },
    TypeMismatch { expected: DataType, got: DataType },
    WrongColumnCount { expected: usize, got: usize },
    VarcharTooLong { max: usize, got: usize },
    ReservedColumnName(Seq<char>),
    InvalidColumnName { name: Seq<char>, reason: Seq<char> },
    DuplicateColumn(Seq<char>),
    DuplicateTable(Seq<char>),
    NoColumns,
    TableNameTooLong(usize),
    ColumnsTooLong(usize),
    OutOfBounds { index: usize, len: usize },
    CorruptedTree(Seq<char>),
    WrongNodeType(Seq<char>),
    IncorrectMagic(Seq<char>),
    ColumnNotInRow(Seq<char>),
    DivisionByZero,
}

impl View for Error {
    type V = ErrorV;

    open spec fn view(&self) -> ErrorV {
        match self {
            Error::UnterminatedString { row, col } => ErrorV::UnterminatedString { row: *row, col: *col },
            Error::InvalidCharacter { ch, row, col } => ErrorV::InvalidCharacter { ch: *ch, row: *row, col: *col },
            Error::UnexpectedToken { expected, got, row, col } => ErrorV::UnexpectedToken {
                expected: expected@,
                got: got@,
                row: *row,
                col: *col,
            },
            Error::UnexpectedEof { expected } => ErrorV::UnexpectedEof { expected: expected@ },
            Error::Parse(s) => ErrorV::Parse(s@),
            Error::TableNotFound(s) => ErrorV::TableNotFound(s@),
            Error::SchemaNotInScope(s) => ErrorV::SchemaNotInScope(s@),
            Error::ColumnNotFound(s) => ErrorV::ColumnNotFound(s@),
            Error::ColumnNotFoundInSchema { column, schema } => ErrorV::ColumnNotFoundInSchema {
                column: column@,
                schema: schema@,
            },
            Error::QualifierRequired { column } => ErrorV::QualifierRequired { column: column@ },
            Error::TypeMismatch { expected, got } => ErrorV::TypeMismatch { expected: *expected, got: *got },
            Error::WrongColumnCount { expected, got } => ErrorV::WrongColumnCount { expected: *expected, got: *got },
            Error::VarcharTooLong { max, got } => ErrorV::VarcharTooLong { max: *max, got: *got },
            Error::ReservedColumnName(s) => ErrorV::ReservedColumnName(s@),
            Error::InvalidColumnName { name, reason } => ErrorV::InvalidColumnName { name: name@, reason: reason@ },
            Error::DuplicateColumn(s) => ErrorV::DuplicateColumn(s@),
            Error::DuplicateTable(s) => ErrorV::DuplicateTable(s@),
            Error::NoColumns => ErrorV::NoColumns,
            Error::TableNameTooLong(n) => ErrorV::TableNameTooLong(*n),
            Error::ColumnsTooLong(n) => ErrorV::ColumnsTooLong(*n),
            Error::OutOfBounds { index, len } => ErrorV::OutOfBounds { index: *index, len: *len },
            Error::CorruptedTree(s) => ErrorV::CorruptedTree(s@),
            Error::WrongNodeType(s) => ErrorV::WrongNodeType(s@),
            Error::IncorrectMagic(s) => ErrorV::IncorrectMagic(s@),
            Error::ColumnNotInRow(s) => ErrorV::ColumnNotInRow(s@),
            Error::DivisionByZero => ErrorV::DivisionByZero,
        }
    }
}

} // verus!
