//! The statements of the SQL dialect and what they give.

use vstd::prelude::*;
use crate::error::DbError;
use crate::sql::lexer::Token;
use crate::types::{Cell, Column, DataType, Value};

verus! {

/// An expression. A floating-point literal is held as it was written; it
/// gets its value outside this library.
#[derive(Debug, PartialEq, Eq)]
pub enum Expr {
    Literal(Value),
    FloatLiteral(String),
    Eq { column: String, value: Box<Expr> },
}

/// An expression with its strings as sequences of characters.
pub ghost enum ExprView {
    Literal(Cell),
    FloatLiteral(Seq<char>),
    Eq { column: Seq<char>, value: Box<ExprView> },
}

/// The view of an expression.
pub open spec fn expr_view(e: Expr) -> ExprView
    decreases e,
{
    match e {
        Expr::Literal(v) => ExprView::Literal(v@),
        Expr::FloatLiteral(s) => ExprView::FloatLiteral(s@),
        Expr::Eq { column, value } => ExprView::Eq {
            column: column@,
            value: Box::new(expr_view(*value)),
        },
    }
}

impl View for Expr {
    type V = ExprView;

    open spec fn view(&self) -> ExprView {
        expr_view(*self)
    }
}

/// A statement.
#[derive(Debug, PartialEq, Eq)]
pub enum Stmt {
    CreateTable { table: String, columns: Vec<Column>, primary_key: usize },
    Insert { table: String, values: Vec<Expr> },
    Select { table: String, filter: Option<Expr> },
    Delete { table: String, filter: Expr },
}

/// A statement with its strings as sequences of characters.
pub ghost enum StmtView {
    CreateTable { table: Seq<char>, columns: Seq<(Seq<char>, DataType)>, primary_key: int },
    Insert { table: Seq<char>, values: Seq<ExprView> },
    Select { table: Seq<char>, filter: Option<ExprView> },
    Delete { table: Seq<char>, filter: ExprView },
}

/// The columns as pairs of name and type.
pub open spec fn columns_view(columns: Seq<Column>) -> Seq<(Seq<char>, DataType)> {
    Seq::new(columns.len(), |i: int| (columns[i].name@, columns[i].dtype))
}

/// The expressions as views.
pub open spec fn exprs_view(exprs: Seq<Expr>) -> Seq<ExprView> {
    Seq::new(exprs.len(), |i: int| exprs[i]@)
}

impl View for Stmt {
    type V = StmtView;

    open spec fn view(&self) -> StmtView {
        match self {
            Stmt::CreateTable { table, columns, primary_key } => StmtView::CreateTable {
                table: table@,
                columns: columns_view(columns@),
                primary_key: *primary_key as int,
            },
            Stmt::Insert { table, values } => StmtView::Insert {
                table: table@,
                values: exprs_view(values@),
            },
            Stmt::Select { table, filter } => StmtView::Select {
                table: table@,
                filter: match filter {
                    Some(f) => Some(f@),
                    None => None,
                },
            },
            Stmt::Delete { table, filter } => StmtView::Delete { table: table@, filter: filter@ },
        }
    }
}

/// The rows of a table with the names of its columns.
#[derive(Debug, Clone, PartialEq, Eq)]
pub struct Rowset {
    pub table: String,
    pub columns: Vec<String>,
    pub rows: Vec<Vec<Value>>,
}

/// What a statement gave: the number of rows it changed, or rows of a
/// table.
#[derive(Debug, Clone, PartialEq, Eq)]
pub enum QueryResult {
    Affected(u64),
    Rows { table: String, rows: Option<Vec<Vec<Value>>> },
}

impl Expr {
    /// The value of a literal that is no floating-point literal. Fails with
    /// `UnsupportedExpression` for any other expression.
    pub fn eval(&self) -> (res: Result<Value, DbError>)
        ensures
            match res {
                Ok(v) => self@ == ExprView::Literal(v@),
                Err(e) => e is UnsupportedExpression && !(self is Literal),
            },
    {
        match self {
            Expr::Literal(v) => Ok(v.copy()),
            _ => Err(DbError::UnsupportedExpression),
        }
    }

    /// The literal that a literal token stands for.
    pub fn from_token(token: Token) -> (res: Self)
        requires
            token is Int || token is Float || token is String,
        ensures
            res@ == literal_view(token),
    {
        match token {
            Token::Int(v) => Expr::Literal(Value::Int(v)),
            Token::Float(s) => Expr::FloatLiteral(s),
            Token::String(s) => Expr::Literal(Value::String(s)),
            _ => Expr::Literal(Value::Null),
        }
    }
}

/// The literal that a literal token stands for.
pub open spec fn literal_view(token: Token) -> ExprView {
    match token {
        Token::Int(v) => ExprView::Literal(Cell::Int(v)),
        Token::Float(s) => ExprView::FloatLiteral(s@),
        Token::String(s) => ExprView::Literal(Cell::Text(crate::record::key_bytes(s@))),
        _ => ExprView::Literal(Cell::Null),
    }
}

} // verus!
