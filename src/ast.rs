use vstd::prelude::*;

verus! {

/// A literal as it appears in a statement.
#[derive(Debug)]
pub enum Literal {
    Null,
    Boolean(bool),
    /// A number as written; only integer literals are accepted.
    Number(String),
    SingleQuotedString(String),
    /// Any other kind of literal.
    Other,
}

/// A unary operator as written.
#[derive(Clone, Copy, Debug, PartialEq, Eq, Structural)]
pub enum SqlUnaryOp {
    Not,
    Plus,
    Minus,
    Other,
}

/// A binary operator as written.
#[derive(Clone, Copy, Debug, PartialEq, Eq, Structural)]
pub enum SqlBinaryOp {
    Plus,
    Minus,
    Multiply,
    Divide,
    And,
    Or,
    Eq,
    NotEq,
    Lt,
    LtEq,
    Gt,
    GtEq,
    Other,
}

/// An expression of a parsed statement, before name resolution.
#[derive(Debug)]
pub enum SqlExpr {
    /// An unquoted identifier.
    Identifier(String),
    Value(Literal),
    UnaryOp(SqlUnaryOp, Box<SqlExpr>),
    BinaryOp(Box<SqlExpr>, SqlBinaryOp, Box<SqlExpr>),
    Nested(Box<SqlExpr>),
    /// A plain function call: its name and its unnamed expression arguments.
    Function(String, Vec<SqlExpr>),
    /// `CASE WHEN c THEN r ... [ELSE e] END`, without an operand.
    Case(Vec<(SqlExpr, SqlExpr)>, Option<Box<SqlExpr>>),
    /// Any other kind of expression.
    Unsupported,
}

/// One `ORDER BY` term.
#[derive(Debug)]
pub struct OrderByExpr {
    pub expr: SqlExpr,
    /// `Some(false)` for `DESC`.
    pub asc: Option<bool>,
    /// Set when `NULLS FIRST` or `NULLS LAST` is written.
    pub nulls_first: Option<bool>,
}

/// One item of a `SELECT` list.
#[derive(Debug)]
pub enum SelectItem {
    /// `*`
    Wildcard,
    UnnamedExpr(SqlExpr),
    ExprWithAlias(SqlExpr, String),
    /// Any other form of item.
    Unsupported,
}

/// `SELECT projection [FROM table] [WHERE selection]`.
#[derive(Debug)]
pub struct SqlSelect {
    pub projection: Vec<SelectItem>,
    /// The one table read, if there is a `FROM`.
    pub from: Option<String>,
    pub selection: Option<SqlExpr>,
}

/// The body of a query.
#[derive(Debug)]
pub enum SetExpr {
    Select(SqlSelect),
    /// `VALUES (...), (...)`: a list of rows of literal expressions.
    Values(Vec<Vec<SqlExpr>>),
}

/// A query: a body and its `ORDER BY` terms.
#[derive(Debug)]
pub struct SqlQuery {
    pub body: SetExpr,
    pub order_by: Vec<OrderByExpr>,
}

/// A column type as declared.
#[derive(Clone, Copy, Debug, PartialEq, Eq, Structural)]
pub enum DataType {
    Bool,
    Integer,
    Text,
    /// Any other declared type.
    Unsupported,
}

/// A column of `CREATE TABLE`.
#[derive(Debug)]
pub struct ColumnDef {
    pub name: String,
    pub data_type: DataType,
    /// Declared `PRIMARY KEY`.
    pub primary_key: bool,
}

/// A parsed statement of the supported shapes.
#[derive(Debug)]
pub enum SqlStatement {
    CreateTable { name: String, columns: Vec<ColumnDef> },
    Drop { name: String },
    Insert { table: String, columns: Vec<String>, source: SqlQuery },
    Query(SqlQuery),
    /// A statement outside the supported subset.
    Unsupported,
}

} // verus!
