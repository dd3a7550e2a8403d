pub mod ast;
pub mod error;
pub mod text;
pub mod codec;
pub mod value;
pub mod field;
pub mod schema;
pub mod record;
pub mod pager;
pub mod magic;
pub mod node;
pub mod btree;
pub mod btree_insert;
pub mod btree_search;
pub mod maps;
pub mod column;
pub mod constants;
pub mod table;
pub mod cursor;
pub mod number;
pub mod query;
pub mod plans;
pub mod database;
pub mod lexer;
pub mod parser;
