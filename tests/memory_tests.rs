use rustsql::ast::Statement;
use rustsql::backend::{Backend, BackendError, Cell, ColumnType};
use rustsql::lexer::{Location, Token, TokenKind};
use rustsql::memory::{MemoryBackend, MemoryCell};
use rustsql::parser::parse;

fn run(backend: &mut MemoryBackend, source: &str) -> Result<(), BackendError> {
    for statement in parse(source).unwrap().statements {
        match statement {
            Statement::CreateTable(c) => backend.create_table(&c)?,
            Statement::Insert(i) => backend.insert(&i)?,
            Statement::Select(_) => panic!("not a change"),
        }
    }
    Ok(())
}

fn query(backend: &MemoryBackend, source: &str) -> Result<rustsql::backend::Results<MemoryCell>, BackendError> {
    match parse(source).unwrap().statements.remove(0) {
        Statement::Select(s) => backend.select(&s),
        _ => panic!("not a query"),
    }
}

fn token(value: &str, kind: TokenKind) -> Token {
    Token { value: value.to_string(), kind, loc: Location::new() }
}

#[test]
fn create_insert_select() {
    let mut backend = MemoryBackend::new();
    run(&mut backend, "create table users (id int, name text);").unwrap();
    run(&mut backend, "insert into users values (105, 'Ann'); insert into users values (7, 'Bo');").unwrap();
    let results = query(&backend, "select name, id from users;").unwrap();
    assert_eq!(results.columns.len(), 2);
    assert_eq!(results.columns[0].name, "name");
    assert_eq!(results.columns[0].col_type, ColumnType::TextType);
    assert_eq!(results.columns[1].name, "id");
    assert_eq!(results.columns[1].col_type, ColumnType::IntType);
    assert_eq!(results.rows.len(), 2);
    assert_eq!(results.rows[0][0].as_text(), "Ann");
    assert_eq!(results.rows[0][1].as_int(), 105);
    assert_eq!(results.rows[1][0].as_text(), "Bo");
    assert_eq!(results.rows[1][1].as_int(), 7);
}

#[test]
fn select_repeats_and_orders_columns() {
    let mut backend = MemoryBackend::new();
    run(&mut backend, "create table t (a int, b int); insert into t values (1, 2);").unwrap();
    let results = query(&backend, "select b, a, b from t;").unwrap();
    let values: Vec<i32> = results.rows[0].iter().map(|c| c.as_int()).collect();
    assert_eq!(values, vec![2, 1, 2]);
    assert_eq!(results.columns.len(), 3);
}

#[test]
fn select_from_empty_table() {
    let mut backend = MemoryBackend::new();
    run(&mut backend, "create table t (a int);").unwrap();
    let results = query(&backend, "select a from t;").unwrap();
    assert_eq!(results.columns.len(), 1);
    assert!(results.rows.is_empty());
}

#[test]
fn create_existing_table_fails() {
    let mut backend = MemoryBackend::new();
    run(&mut backend, "create table t (a int);").unwrap();
    assert_eq!(run(&mut backend, "create table t (b text);"), Err(BackendError::TableAlreadyExists));
    run(&mut backend, "insert into t values (3);").unwrap();
}

#[test]
fn create_with_unknown_type_fails() {
    let mut backend = MemoryBackend::new();
    assert_eq!(run(&mut backend, "create table t (a boolean);"), Err(BackendError::InvalidDatatype));
    assert_eq!(run(&mut backend, "insert into t values (3);"), Err(BackendError::TableDoesNotExist));
}

#[test]
fn insert_errors() {
    let mut backend = MemoryBackend::new();
    assert_eq!(run(&mut backend, "insert into t values (1);"), Err(BackendError::TableDoesNotExist));
    run(&mut backend, "create table t (a int, b text);").unwrap();
    assert_eq!(run(&mut backend, "insert into t values (1);"), Err(BackendError::MissingValues));
    assert_eq!(run(&mut backend, "insert into t values (1, x);"), Err(BackendError::InvalidValue));
    assert_eq!(run(&mut backend, "insert into t values (1.5, 'x');"), Err(BackendError::InvalidValue));
    assert_eq!(
        run(&mut backend, "insert into t values (99999999999, 'x');"),
        Err(BackendError::InvalidValue)
    );
    let results = query(&backend, "select a from t;").unwrap();
    assert!(results.rows.is_empty());
}

#[test]
fn select_errors() {
    let mut backend = MemoryBackend::new();
    assert_eq!(query(&backend, "select a from t;").err(), Some(BackendError::TableDoesNotExist));
    run(&mut backend, "create table t (a int);").unwrap();
    assert_eq!(query(&backend, "select b from t;").err(), Some(BackendError::ColumnDoesNotExist));
    assert_eq!(query(&backend, "select 1 from t;").err(), Some(BackendError::ColumnDoesNotExist));
}

#[test]
fn token_cells() {
    let cell = MemoryBackend::token_to_cell(&token("105", TokenKind::NumericKind)).unwrap();
    assert_eq!(cell.0, vec![0, 0, 0, 105]);
    let cell = MemoryBackend::token_to_cell(&token("-2", TokenKind::NumericKind)).unwrap();
    assert_eq!(cell.0, vec![255, 255, 255, 254]);
    assert_eq!(cell.as_int(), -2);
    let cell = MemoryBackend::token_to_cell(&token("2147483647", TokenKind::NumericKind)).unwrap();
    assert_eq!(cell.0, vec![127, 255, 255, 255]);
    assert_eq!(cell.as_int(), 2147483647);
    let cell = MemoryBackend::token_to_cell(&token("-2147483648", TokenKind::NumericKind)).unwrap();
    assert_eq!(cell.as_int(), -2147483648);
    assert!(MemoryBackend::token_to_cell(&token("2147483648", TokenKind::NumericKind)).is_none());
    assert!(MemoryBackend::token_to_cell(&token("1e5", TokenKind::NumericKind)).is_none());
    let cell = MemoryBackend::token_to_cell(&token("h\u{e9}", TokenKind::StringKind)).unwrap();
    assert_eq!(cell.0, vec![b'h', 0xc3, 0xa9]);
    assert_eq!(cell.as_text(), "h\u{e9}");
    assert!(MemoryBackend::token_to_cell(&token("a", TokenKind::IdentifierKind)).is_none());
    assert!(MemoryBackend::token_to_cell(&token("true", TokenKind::BooleanKind)).is_none());
}

#[test]
fn cell_reads_outside_their_encoding() {
    assert_eq!(MemoryCell(vec![1, 2, 3]).as_int(), 0);
    assert_eq!(MemoryCell(vec![0, 0, 1, 0]).as_int(), 256);
    assert_eq!(MemoryCell(vec![0xff, 0xfe]).as_text(), "");
    assert_eq!(MemoryCell(vec![b'o', b'k']).as_text(), "ok");
    assert_eq!(MemoryCell(vec![b'o', b'k']).clone().0, vec![b'o', b'k']);
}

#[test]
fn error_messages() {
    assert_eq!(BackendError::TableDoesNotExist.message(), "Table does not exist");
    assert_eq!(BackendError::ColumnDoesNotExist.message(), "Column does not exist");
    assert_eq!(BackendError::MissingValues.message(), "Missing values");
}
