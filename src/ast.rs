use vstd::prelude::*;

use crate::lexer::{Token, TokenV};

verus! {

/// The statements of one source text, in order.
#[derive(Debug, PartialEq)]
pub struct Ast {
    pub statements: Vec<Statement>,
}

/// The kind of a statement.
#[derive(Clone, Copy, Debug, PartialEq, Eq, Structural)]
pub enum AstKind {
    SelectKind,
    CreateTableKind,
    InsertKind,
}

/// One statement: exactly one of the three forms.
#[derive(Debug, PartialEq)]
pub enum Statement {
    Select(SelectStatement),
    CreateTable(CreateTableStatement),
    Insert(InsertStatement),
}

#[derive(Debug, PartialEq)]
pub struct InsertStatement {
    pub table: Token,
    pub values: Vec<Expression>,
}

#[derive(Clone, Copy, Debug, PartialEq, Eq, Structural)]
pub enum ExpressionKind {
    LiteralKind,
}

#[derive(Debug, PartialEq)]
pub struct Expression {
    pub literal: Token,
    pub kind: ExpressionKind,
}

#[derive(Debug, PartialEq)]
pub struct ColumnDefinition {
    pub name: Token,
    pub datatype: Token,
}

#[derive(Debug, PartialEq)]
pub struct CreateTableStatement {
    pub name: Token,
    pub cols: Vec<ColumnDefinition>,
}

#[derive(Debug, PartialEq)]
pub struct SelectStatement {
    pub item: Vec<Expression>,
    pub from: Token,
}

pub struct ExpressionV {
    pub literal: TokenV,
    pub kind: ExpressionKind,
}

pub struct ColumnDefinitionV {
    pub name: TokenV,
    pub datatype: TokenV,
}

pub struct InsertV {
    pub table: TokenV,
    pub values: Seq<ExpressionV>,
}

pub struct CreateTableV {
    pub name: TokenV,
    pub cols: Seq<ColumnDefinitionV>,
}

pub struct SelectV {
    pub items: Seq<ExpressionV>,
    pub from: TokenV,
}

pub enum StatementV {
    Select(SelectV),
    CreateTable(CreateTableV),
    Insert(InsertV),
}

impl View for Expression {
    type V = ExpressionV;

    open spec fn view(&self) -> ExpressionV {
        ExpressionV { literal: self.literal@, kind: self.kind }
    }
}

impl View for ColumnDefinition {
    type V = ColumnDefinitionV;

    open spec fn view(&self) -> ColumnDefinitionV {
        ColumnDefinitionV { name: self.name@, datatype: self.datatype@ }
    }
}

pub open spec fn expressions_view(v: Seq<Expression>) -> Seq<ExpressionV> {
    v.map_values(|e: Expression| e@)
}

pub open spec fn columns_view(v: Seq<ColumnDefinition>) -> Seq<ColumnDefinitionV> {
    v.map_values(|c: ColumnDefinition| c@)
}

impl View for InsertStatement {
    type V = InsertV;

    open spec fn view(&self) -> InsertV {
        InsertV { table: self.table@, values: expressions_view(self.values@) }
    }
}

impl View for CreateTableStatement {
    type V = CreateTableV;

    open spec fn view(&self) -> CreateTableV {
        CreateTableV { name: self.name@, cols: columns_view(self.cols@) }
    }
}

impl View for SelectStatement {
    type V = SelectV;

    open spec fn view(&self) -> SelectV {
        SelectV { items: expressions_view(self.item@), from: self.from@ }
    }
}

impl View for Statement {
    type V = StatementV;

    open spec fn view(&self) -> StatementV {
        match self {
            Statement::Select(s) => StatementV::Select(s@),
            Statement::CreateTable(s) => StatementV::CreateTable(s@),
            Statement::Insert(s) => StatementV::Insert(s@),
        }
    }
}

pub open spec fn statements_view(v: Seq<Statement>) -> Seq<StatementV> {
    v.map_values(|s: Statement| s@)
}

impl View for Ast {
    type V = Seq<StatementV>;

    open spec fn view(&self) -> Seq<StatementV> {
        statements_view(self.statements@)
    }
}

pub open spec fn statement_kind(s: StatementV) -> AstKind {
    match s {
        StatementV::Select(_) => AstKind::SelectKind,
        StatementV::CreateTable(_) => AstKind::CreateTableKind,
        StatementV::Insert(_) => AstKind::InsertKind,
    }
}

impl Statement {
    /// The kind tag of this statement, which always agrees with its form.
    pub fn kind(&self) -> (r: AstKind)
        ensures
            r == statement_kind(self@),
    {
        match self {
            Statement::Select(_) => AstKind::SelectKind,
            Statement::CreateTable(_) => AstKind::CreateTableKind,
            Statement::Insert(_) => AstKind::InsertKind,
        }
    }
}

} // verus!
