use vstd::prelude::*;

use crate::ast::{CreateTableStatement, InsertStatement, SelectStatement};

verus! {

/// The declared type of a stored column.
#[derive(Clone, Copy, Debug, PartialEq, Eq, Structural)]
pub enum ColumnType {
    TextType,
    IntType,
}

/// A value in a row of a query result.
pub trait Cell {
    /// The value read as text.
    fn as_text(&self) -> String;

    /// The value read as an integer.
    fn as_int(&self) -> i32;
}

/// A column of a query result: its name and declared type.
#[derive(Debug)]
pub struct Column {
    pub col_type: ColumnType,
    pub name: String,
}

/// What a query returns: its columns, and one row of cells per stored row.
#[derive(Debug)]
pub struct Results<C> {
    pub columns: Vec<Column>,
    pub rows: Vec<Vec<C>>,
}

/// Why a backend refused a statement.
#[derive(Clone, Copy, Debug, PartialEq, Eq, Structural)]
pub enum BackendError {
    TableAlreadyExists,
    TableDoesNotExist,
    ColumnDoesNotExist,
    MissingValues,
    InvalidDatatype,
    InvalidValue,
}

impl BackendError {
    /// A short description of the error.
    pub fn message(&self) -> (r: &'static str)
        ensures
            r@ == match *self {
                BackendError::TableAlreadyExists => "Table already exists"@,
                BackendError::TableDoesNotExist => "Table does not exist"@,
                BackendError::ColumnDoesNotExist => "Column does not exist"@,
                BackendError::MissingValues => "Missing values"@,
                BackendError::InvalidDatatype => "Invalid datatype"@,
                BackendError::InvalidValue => "Invalid value"@,
            },
    {
        match self {
            BackendError::TableAlreadyExists => "Table already exists",
            BackendError::TableDoesNotExist => "Table does not exist",
            BackendError::ColumnDoesNotExist => "Column does not exist",
            BackendError::MissingValues => "Missing values",
            BackendError::InvalidDatatype => "Invalid datatype",
            BackendError::InvalidValue => "Invalid value",
        }
    }
}

/// Stores tables and rows, and answers queries, for parsed statements.
pub trait Backend {
    type Cell: Cell;

    fn create_table(&mut self, create_table_statement: &CreateTableStatement) -> Result<(), BackendError>;

    fn insert(&mut self, insert_statement: &InsertStatement) -> Result<(), BackendError>;

    fn select(&self, select_statement: &SelectStatement) -> Result<Results<Self::Cell>, BackendError>;
}

} // verus!
