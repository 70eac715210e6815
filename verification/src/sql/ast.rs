//! Statements, as far as the executor tells them apart.
//!
//! Where a message shows a part of a statement, the part carries its text.

use vstd::prelude::*;

verus! {

/// A name of one or more parts.
#[derive(Debug)]
pub struct ObjectName {
    pub parts: Vec<String>,
    pub text: String,
}

/// A literal.
#[derive(Debug)]
pub enum Literal {
    /// A text in single quotes.
    Text(String),
    /// The digits of a number, without a sign.
    Number(String),
    Null,
    /// Any other literal.
    Other,
}

/// An operator between two expressions.
#[derive(Debug)]
pub enum BinaryOp {
    And,
    Or,
    Eq,
    NotEq,
    /// Any other operator, by its text.
    Other(String),
}

/// What an expression is.
#[derive(Debug)]
pub enum ExprKind {
    Identifier(String),
    Compound(Vec<String>),
    Value(Literal),
    Minus(Box<Expr>),
    Binary(Box<Expr>, BinaryOp, Box<Expr>),
    Other,
}

/// An expression.
#[derive(Debug)]
pub struct Expr {
    pub kind: ExprKind,
    pub text: String,
}

/// An item of a `SELECT` list.
#[derive(Debug)]
pub enum SelectItem {
    Wildcard,
    Unnamed(Expr),
    /// Any other item, by its text.
    Other(String),
}

/// What a `FROM` clause names.
#[derive(Debug)]
pub enum TableFactor {
    Table(ObjectName),
    Other,
}

/// A table of a `FROM` clause, and how many tables are joined to it.
#[derive(Debug)]
pub struct TableWithJoins {
    pub relation: TableFactor,
    pub joins: usize,
}

/// A `SELECT`.
#[derive(Debug)]
pub struct Select {
    pub from: Vec<TableWithJoins>,
    pub projection: Vec<SelectItem>,
    pub selection: Option<Expr>,
}

/// What a query consists of.
#[derive(Debug)]
pub enum QueryBody {
    Select(Select),
    Values(Vec<Vec<Expr>>),
    Other,
}

/// What rows are inserted into.
#[derive(Debug)]
pub enum InsertTarget {
    Name(ObjectName),
    Function,
}

/// An `INSERT`.
#[derive(Debug)]
pub struct Insert {
    pub table: InsertTarget,
    pub columns: Vec<String>,
    pub source: Option<QueryBody>,
}

/// A `DELETE`.
#[derive(Debug)]
pub struct Delete {
    pub from: Vec<TableWithJoins>,
    pub selection: Option<Expr>,
}

/// What a value is assigned to.
#[derive(Debug)]
pub enum AssignmentTarget {
    Column(ObjectName),
    Tuple,
}

/// An assignment of an `UPDATE`.
#[derive(Debug)]
pub struct Assignment {
    pub target: AssignmentTarget,
    pub value: Expr,
}

/// An `UPDATE`.
#[derive(Debug)]
pub struct Update {
    pub table: TableWithJoins,
    pub assignments: Vec<Assignment>,
    pub selection: Option<Expr>,
}

/// The length of a type of texts, as it is written.
#[derive(Debug)]
pub enum CharLength {
    Integer(u64),
    Max,
}

/// The type of a new column, as it is written.
#[derive(Debug)]
pub enum SqlType {
    SmallInt,
    Int,
    Integer,
    BigInt,
    Double,
    DoublePrecision,
    Varchar(Option<CharLength>),
    Char(Option<CharLength>),
    Character(Option<CharLength>),
    Timestamp,
    Boolean,
    /// Any other type, by its text.
    Other(String),
}

/// An option of a new column.
#[derive(Debug)]
pub enum ColumnOption {
    NotNull,
    Other,
}

/// A new column.
#[derive(Debug)]
pub struct ColumnSpec {
    pub name: String,
    pub data_type: SqlType,
    pub options: Vec<ColumnOption>,
}

/// A `CREATE TABLE`.
#[derive(Debug)]
pub struct CreateTable {
    pub name: ObjectName,
    pub columns: Vec<ColumnSpec>,
}

/// A `DROP TABLE`.
#[derive(Debug)]
pub struct DropTable {
    pub names: Vec<ObjectName>,
    pub if_exists: bool,
}

/// A statement.
#[derive(Debug)]
pub enum Command {
    Query(QueryBody),
    Insert(Insert),
    Delete(Delete),
    Update(Update),
    CreateTable(CreateTable),
    DropTable(DropTable),
    /// Any other statement, by its text.
    Other(String),
}

} // verus!
