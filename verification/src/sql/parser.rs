//! The parser of the SQL dialect: one statement from the tokens of a line.

use vstd::prelude::*;
use vstd::string::StringExecFns;
use crate::error::DbError;
use crate::keys::str_eq;
use crate::record::key_bytes;
use crate::decimal::{format_i64, signed_decimal};
use crate::sql::ast::{columns_view, exprs_view, Expr, ExprView, Stmt, StmtView};
use crate::sql::lexer::{to_uppercase, token_at, uppercase, Lexer, Token, TokenView};
use crate::types::{Cell, Column, DataType};

verus! {

/// The ways in which a statement can fail to parse.
pub ghost enum ErrKind {
    Parse(Seq<char>),
    Unexpected { expected: Seq<char>, found: Seq<char> },
    InvalidDataType,
    DuplicatePrimaryKey,
    PrimaryKeyMissing,
    UnsupportedExpression,
    UnsupportedStatement,
    Other,
}

/// The way of failing that an error says.
pub open spec fn err_kind(e: DbError) -> ErrKind {
    match e {
        DbError::ParseError(message) => ErrKind::Parse(message@),
        DbError::UnexpectedToken { expected, found } => ErrKind::Unexpected {
            expected: expected@,
            found: found@,
        },
        DbError::InvalidDataType => ErrKind::InvalidDataType,
        DbError::DuplicatePrimaryKey => ErrKind::DuplicatePrimaryKey,
        DbError::PrimaryKeyMissing => ErrKind::PrimaryKeyMissing,
        DbError::UnsupportedExpression => ErrKind::UnsupportedExpression,
        DbError::UnsupportedStatement => ErrKind::UnsupportedStatement,
        _ => ErrKind::Other,
    }
}

/// Where a parser stands: the position of its lexer and the token read
/// last.
pub ghost struct PState {
    pub pos: int,
    pub current: TokenView,
}

/// Reading the next token.
pub open spec fn s_advance(input: Seq<char>, st: PState) -> Result<PState, ErrKind> {
    match token_at(input, st.pos).0 {
        Ok(t) => Ok(PState { pos: token_at(input, st.pos).1, current: t }),
        Err(message) => Err(ErrKind::Parse(message)),
    }
}

/// Passing the token `t`.
pub open spec fn s_expect(input: Seq<char>, st: PState, t: TokenView) -> Result<PState, ErrKind> {
    if st.current == t {
        s_advance(input, st)
    } else {
        Err(ErrKind::Unexpected { expected: token_text(t), found: token_text(st.current) })
    }
}

/// Passing an identifier.
pub open spec fn s_ident(input: Seq<char>, st: PState) -> Result<(Seq<char>, PState), ErrKind> {
    match st.current {
        TokenView::Ident(name) => match s_advance(input, st) {
            Ok(next) => Ok((name, next)),
            Err(e) => Err(e),
        },
        _ => Err(ErrKind::Unexpected { expected: "identifier"@, found: token_text(st.current) }),
    }
}

/// The literal that a token view stands for, if it is a literal's.
pub open spec fn literal_of(t: TokenView) -> Option<ExprView> {
    match t {
        TokenView::Int(v) => Some(ExprView::Literal(Cell::Int(v))),
        TokenView::Float(s) => Some(ExprView::FloatLiteral(s)),
        TokenView::String(s) => Some(ExprView::Literal(Cell::Text(key_bytes(s)))),
        _ => None,
    }
}

/// Passing an expression: a literal.
pub open spec fn s_expr(input: Seq<char>, st: PState) -> Result<(ExprView, PState), ErrKind> {
    match literal_of(st.current) {
        Some(e) => match s_advance(input, st) {
            Ok(next) => Ok((e, next)),
            Err(e) => Err(e),
        },
        None => Err(ErrKind::UnsupportedExpression),
    }
}

/// Passing `WHERE column = literal`.
pub open spec fn s_where(input: Seq<char>, st: PState) -> Result<(ExprView, PState), ErrKind> {
    match s_expect(input, st, TokenView::Where) {
        Err(e) => Err(e),
        Ok(st1) => match s_ident(input, st1) {
            Err(e) => Err(e),
            Ok((column, st2)) => match s_expect(input, st2, TokenView::Eq) {
                Err(e) => Err(e),
                Ok(st3) => match s_expr(input, st3) {
                    Err(e) => Err(e),
                    Ok((value, st4)) => Ok(
                        (ExprView::Eq { column, value: Box::new(value) }, st4),
                    ),
                },
            },
        },
    }
}

/// Passing `SELECT * FROM table [WHERE ..];`.
pub open spec fn s_select(input: Seq<char>, st: PState) -> Result<(StmtView, PState), ErrKind> {
    match s_expect(input, st, TokenView::Select) {
        Err(e) => Err(e),
        Ok(st1) => match s_expect(input, st1, TokenView::Star) {
            Err(e) => Err(e),
            Ok(st2) => match s_expect(input, st2, TokenView::From) {
                Err(e) => Err(e),
                Ok(st3) => match s_ident(input, st3) {
                    Err(e) => Err(e),
                    Ok((table, st4)) => if st4.current == TokenView::Where {
                        match s_where(input, st4) {
                            Err(e) => Err(e),
                            Ok((filter, st5)) => match s_expect(
                                input,
                                st5,
                                TokenView::Semicolon,
                            ) {
                                Err(e) => Err(e),
                                Ok(st6) => Ok(
                                    (StmtView::Select { table, filter: Some(filter) }, st6),
                                ),
                            },
                        }
                    } else {
                        match s_expect(input, st4, TokenView::Semicolon) {
                            Err(e) => Err(e),
                            Ok(st6) => Ok((StmtView::Select { table, filter: None }, st6)),
                        }
                    },
                },
            },
        },
    }
}

/// Passing `DELETE FROM table WHERE ..;`.
pub open spec fn s_delete(input: Seq<char>, st: PState) -> Result<(StmtView, PState), ErrKind> {
    match s_expect(input, st, TokenView::Delete) {
        Err(e) => Err(e),
        Ok(st1) => match s_expect(input, st1, TokenView::From) {
            Err(e) => Err(e),
            Ok(st2) => match s_ident(input, st2) {
                Err(e) => Err(e),
                Ok((table, st3)) => if st3.current == TokenView::Where {
                    match s_where(input, st3) {
                        Err(e) => Err(e),
                        Ok((filter, st4)) => match s_expect(input, st4, TokenView::Semicolon) {
                            Err(e) => Err(e),
                            Ok(st5) => Ok((StmtView::Delete { table, filter }, st5)),
                        },
                    }
                } else {
                    Err(ErrKind::Parse("DELETE requires WHERE clause"@))
                },
            },
        },
    }
}

/// Passing the values of an insert up to the closing parenthesis, after
/// the values `values`.
pub open spec fn s_values(input: Seq<char>, st: PState, values: Seq<ExprView>) -> Result<
    (Seq<ExprView>, PState),
    ErrKind,
>
    decreases input.len() - st.pos,
{
    match s_expr(input, st) {
        Err(e) => Err(e),
        Ok((value, st1)) => match st1.current {
            TokenView::Comma => match s_advance(input, st1) {
                Err(e) => Err(e),
                Ok(st2) => if st.pos < st2.pos <= input.len() {
                    s_values(input, st2, values.push(value))
                } else {
                    Err(ErrKind::Other)
                },
            },
            TokenView::RParen => Ok((values.push(value), st1)),
            _ => Err(ErrKind::Parse("Expected ',' or ')' in VALUES"@)),
        },
    }
}

/// Passing `INSERT INTO table VALUES (literal, ..);`.
pub open spec fn s_insert(input: Seq<char>, st: PState) -> Result<(StmtView, PState), ErrKind> {
    match s_expect(input, st, TokenView::Insert) {
        Err(e) => Err(e),
        Ok(st1) => match s_expect(input, st1, TokenView::Into) {
            Err(e) => Err(e),
            Ok(st2) => match s_ident(input, st2) {
                Err(e) => Err(e),
                Ok((table, st3)) => match s_expect(input, st3, TokenView::Values) {
                    Err(e) => Err(e),
                    Ok(st4) => match s_expect(input, st4, TokenView::LParen) {
                        Err(e) => Err(e),
                        Ok(st5) => match s_values(input, st5, Seq::empty()) {
                            Err(e) => Err(e),
                            Ok((values, st6)) => match s_expect(input, st6, TokenView::RParen) {
                                Err(e) => Err(e),
                                Ok(st7) => match s_expect(input, st7, TokenView::Semicolon) {
                                    Err(e) => Err(e),
                                    Ok(st8) => Ok((StmtView::Insert { table, values }, st8)),
                                },
                            },
                        },
                    },
                },
            },
        },
    }
}

/// The type that the upper-case form of a type's name names.
pub open spec fn type_named(upper: Seq<char>) -> Option<DataType> {
    if upper == "INT"@ {
        Some(DataType::Int)
    } else if upper == "STRING"@ {
        Some(DataType::String)
    } else if upper == "FLOAT"@ {
        Some(DataType::Float)
    } else if upper == "BOOL"@ {
        Some(DataType::Bool)
    } else {
        None
    }
}

/// The type that a token names.
pub open spec fn type_of_token(t: TokenView) -> Option<DataType> {
    match t {
        TokenView::Ident(name) => type_named(uppercase(name)),
        _ => None,
    }
}

/// Passing the columns of a table up to and with the closing parenthesis,
/// after the columns `columns`, of which `primary` is the primary key.
pub open spec fn s_columns(
    input: Seq<char>,
    st: PState,
    columns: Seq<(Seq<char>, DataType)>,
    primary: Option<int>,
) -> Result<(Seq<(Seq<char>, DataType)>, Option<int>, PState), ErrKind>
    decreases input.len() - st.pos,
{
    match s_ident(input, st) {
        Err(e) => Err(e),
        Ok((name, st1)) => match type_of_token(st1.current) {
            None => Err(ErrKind::InvalidDataType),
            Some(dtype) => match s_advance(input, st1) {
                Err(e) => Err(e),
                Ok(st2) => {
                    let cols = columns.push((name, dtype));
                    let marked = if st2.current == TokenView::Primary {
                        match s_advance(input, st2) {
                            Err(e) => Err(e),
                            Ok(st3) => match s_expect(input, st3, TokenView::Key) {
                                Err(e) => Err(e),
                                Ok(st4) => if primary is Some {
                                    Err(ErrKind::DuplicatePrimaryKey)
                                } else {
                                    Ok((Some(columns.len() as int), st4))
                                },
                            },
                        }
                    } else {
                        Ok((primary, st2))
                    };
                    match marked {
                        Err(e) => Err(e),
                        Ok((pk, st5)) => match st5.current {
                            TokenView::Comma => match s_advance(input, st5) {
                                Err(e) => Err(e),
                                Ok(st6) => if st.pos < st6.pos <= input.len() {
                                    s_columns(input, st6, cols, pk)
                                } else {
                                    Err(ErrKind::Other)
                                },
                            },
                            TokenView::RParen => match s_advance(input, st5) {
                                Err(e) => Err(e),
                                Ok(st6) => Ok((cols, pk, st6)),
                            },
                            _ => Err(
                                ErrKind::Unexpected {
                                    expected: "comma or ')'"@,
                                    found: token_text(st5.current),
                                },
                            ),
                        },
                    }
                },
            },
        },
    }
}

/// Passing `CREATE TABLE table (column type [PRIMARY KEY], ..)`.
pub open spec fn s_create(input: Seq<char>, st: PState) -> Result<(StmtView, PState), ErrKind> {
    match s_expect(input, st, TokenView::Create) {
        Err(e) => Err(e),
        Ok(st1) => match s_expect(input, st1, TokenView::Table) {
            Err(e) => Err(e),
            Ok(st2) => match s_ident(input, st2) {
                Err(e) => Err(e),
                Ok((table, st3)) => match s_expect(input, st3, TokenView::LParen) {
                    Err(e) => Err(e),
                    Ok(st4) => match s_columns(input, st4, Seq::empty(), None) {
                        Err(e) => Err(e),
                        Ok((columns, primary, st5)) => match primary {
                            None => Err(ErrKind::PrimaryKeyMissing),
                            Some(primary_key) => Ok(
                                (StmtView::CreateTable { table, columns, primary_key }, st5),
                            ),
                        },
                    },
                },
            },
        },
    }
}

/// Passing one statement.
pub open spec fn s_stmt(input: Seq<char>, st: PState) -> Result<(StmtView, PState), ErrKind> {
    match st.current {
        TokenView::Create => s_create(input, st),
        TokenView::Insert => s_insert(input, st),
        TokenView::Select => s_select(input, st),
        TokenView::Delete => s_delete(input, st),
        _ => Err(ErrKind::UnsupportedStatement),
    }
}

/// How a token is named in an error.
pub open spec fn token_text(t: TokenView) -> Seq<char> {
    match t {
        TokenView::Create => "Create"@,
        TokenView::Table => "Table"@,
        TokenView::Primary => "Primary"@,
        TokenView::Key => "Key"@,
        TokenView::Insert => "Insert"@,
        TokenView::Into => "Into"@,
        TokenView::Values => "Values"@,
        TokenView::Select => "Select"@,
        TokenView::From => "From"@,
        TokenView::Where => "Where"@,
        TokenView::Delete => "Delete"@,
        TokenView::Ident(s) => "Ident("@ + s + ")"@,
        TokenView::Int(v) => "Int("@ + signed_decimal(v as int) + ")"@,
        TokenView::Float(s) => "Float("@ + s + ")"@,
        TokenView::String(s) => "String("@ + s + ")"@,
        TokenView::LParen => "LParen"@,
        TokenView::RParen => "RParen"@,
        TokenView::Comma => "Comma"@,
        TokenView::Semicolon => "Semicolon"@,
        TokenView::Star => "Star"@,
        TokenView::Eq => "Eq"@,
        TokenView::EOF => "EOF"@,
    }
}

/// `text` between `open` and a closing parenthesis.
fn wrapped(open: &str, text: &str) -> (res: String)
    ensures
        res@ == open@ + text@ + ")"@,
{
    let mut res = String::from_str(open);
    res.append(text);
    res.append(")");
    res
}

/// How `token` is named in an error.
pub fn describe(token: &Token) -> (res: String)
    ensures
        res@ == token_text(token@),
{
    match token {
        Token::Create => String::from_str("Create"),
        Token::Table => String::from_str("Table"),
        Token::Primary => String::from_str("Primary"),
        Token::Key => String::from_str("Key"),
        Token::Insert => String::from_str("Insert"),
        Token::Into => String::from_str("Into"),
        Token::Values => String::from_str("Values"),
        Token::Select => String::from_str("Select"),
        Token::From => String::from_str("From"),
        Token::Where => String::from_str("Where"),
        Token::Delete => String::from_str("Delete"),
        Token::Ident(s) => wrapped("Ident(", s.as_str()),
        Token::Int(v) => {
            let digits = format_i64(*v);
            wrapped("Int(", digits.as_str())
        },
        Token::Float(s) => wrapped("Float(", s.as_str()),
        Token::String(s) => wrapped("String(", s.as_str()),
        Token::LParen => String::from_str("LParen"),
        Token::RParen => String::from_str("RParen"),
        Token::Comma => String::from_str("Comma"),
        Token::Semicolon => String::from_str("Semicolon"),
        Token::Star => String::from_str("Star"),
        Token::Eq => String::from_str("Eq"),
        Token::EOF => String::from_str("EOF"),
    }
}

/// Whether two tokens are the same.
pub fn token_eq(a: &Token, b: &Token) -> (res: bool)
    ensures
        res == (a@ == b@),
{
    match (a, b) {
        (Token::Create, Token::Create) => true,
        (Token::Table, Token::Table) => true,
        (Token::Primary, Token::Primary) => true,
        (Token::Key, Token::Key) => true,
        (Token::Insert, Token::Insert) => true,
        (Token::Into, Token::Into) => true,
        (Token::Values, Token::Values) => true,
        (Token::Select, Token::Select) => true,
        (Token::From, Token::From) => true,
        (Token::Where, Token::Where) => true,
        (Token::Delete, Token::Delete) => true,
        (Token::Ident(x), Token::Ident(y)) => str_eq(x.as_str(), y.as_str()),
        (Token::Int(x), Token::Int(y)) => *x == *y,
        (Token::Float(x), Token::Float(y)) => str_eq(x.as_str(), y.as_str()),
        (Token::String(x), Token::String(y)) => str_eq(x.as_str(), y.as_str()),
        (Token::LParen, Token::LParen) => true,
        (Token::RParen, Token::RParen) => true,
        (Token::Comma, Token::Comma) => true,
        (Token::Semicolon, Token::Semicolon) => true,
        (Token::Star, Token::Star) => true,
        (Token::Eq, Token::Eq) => true,
        (Token::EOF, Token::EOF) => true,
        _ => false,
    }
}

/// The type that the upper-case name `upper` names.
pub fn type_for(upper: &str) -> (res: Option<DataType>)
    ensures
        res == type_named(upper@),
{
    if str_eq(upper, "INT") {
        Some(DataType::Int)
    } else if str_eq(upper, "STRING") {
        Some(DataType::String)
    } else if str_eq(upper, "FLOAT") {
        Some(DataType::Float)
    } else if str_eq(upper, "BOOL") {
        Some(DataType::Bool)
    } else {
        None
    }
}

/// A parser: a lexer and the token that it read last.
#[derive(Debug, PartialEq, Eq)]
pub struct Parser {
    pub lexer: Lexer,
    pub current: Token,
}

impl Parser {
    /// The lexer stands within its input.
    pub open spec fn wf(&self) -> bool {
        self.lexer.wf()
    }

    /// The characters that the parser reads.
    pub open spec fn input(&self) -> Seq<char> {
        self.lexer.input@
    }

    /// Where the parser stands.
    pub open spec fn state(&self) -> PState {
        PState { pos: self.lexer.pos as int, current: self.current@ }
    }

    /// A parser that has read the first token of `lexer`. Fails with
    /// `ParseError` where the lexer does.
    pub fn new(lexer: Lexer) -> (res: Result<Self, DbError>)
        requires
            lexer.wf(),
        ensures
            match res {
                Ok(p) => p.wf() && p.input() == lexer.input@ && token_at(
                    lexer.input@,
                    lexer.pos as int,
                ) == (Ok::<TokenView, Seq<char>>(p.current@), p.lexer.pos as int),
                Err(e) => token_at(lexer.input@, lexer.pos as int).0 is Err && err_kind(e)
                    == ErrKind::Parse(token_at(lexer.input@, lexer.pos as int).0->Err_0),
            },
    {
        let mut lexer = lexer;
        match lexer.next_token() {
            Ok(current) => Ok(Self { lexer, current }),
            Err(e) => Err(DbError::ParseError(e)),
        }
    }

    /// Reads the next token. Fails with `ParseError` where the lexer does.
    pub fn advance(&mut self) -> (res: Result<(), DbError>)
        requires
            old(self).wf(),
        ensures
            final(self).wf(),
            final(self).input() == old(self).input(),
            old(self).lexer.pos <= final(self).lexer.pos,
            match res {
                Ok(()) => s_advance(old(self).input(), old(self).state()) == Ok::<
                    PState,
                    ErrKind,
                >(final(self).state()) && (final(self).current is EOF || old(self).lexer.pos
                    < final(self).lexer.pos),
                Err(e) => s_advance(old(self).input(), old(self).state()) == Err::<
                    PState,
                    ErrKind,
                >(err_kind(e)),
            },
    {
        match self.lexer.next_token() {
            Ok(token) => {
                self.current = token;
                Ok(())
            },
            Err(e) => Err(DbError::ParseError(e)),
        }
    }

    /// Passes the token `expected`. Fails with `UnexpectedToken` where
    /// another token stands there.
    pub fn expect(&mut self, expected: Token) -> (res: Result<(), DbError>)
        requires
            old(self).wf(),
        ensures
            final(self).wf(),
            final(self).input() == old(self).input(),
            old(self).lexer.pos <= final(self).lexer.pos,
            match res {
                Ok(()) => s_expect(old(self).input(), old(self).state(), expected@) == Ok::<
                    PState,
                    ErrKind,
                >(final(self).state()) && (final(self).current is EOF || old(self).lexer.pos
                    < final(self).lexer.pos),
                Err(e) => s_expect(old(self).input(), old(self).state(), expected@) == Err::<
                    PState,
                    ErrKind,
                >(err_kind(e)),
            },
    {
        if token_eq(&self.current, &expected) {
            self.advance()
        } else {
            Err(
                DbError::UnexpectedToken {
                    expected: describe(&expected),
                    found: describe(&self.current),
                },
            )
        }
    }

    /// Passes an identifier and returns it. Fails with `UnexpectedToken`
    /// where another token stands there.
    pub fn expect_ident(&mut self) -> (res: Result<String, DbError>)
        requires
            old(self).wf(),
        ensures
            final(self).wf(),
            final(self).input() == old(self).input(),
            old(self).lexer.pos <= final(self).lexer.pos,
            match res {
                Ok(name) => s_ident(old(self).input(), old(self).state()) == Ok::<
                    (Seq<char>, PState),
                    ErrKind,
                >((name@, final(self).state())) && (final(self).current is EOF || old(
                    self,
                ).lexer.pos < final(self).lexer.pos),
                Err(e) => s_ident(old(self).input(), old(self).state()) == Err::<
                    (Seq<char>, PState),
                    ErrKind,
                >(err_kind(e)),
            },
    {
        let name = match &self.current {
            Token::Ident(name) => name.clone(),
            _ => {
                return Err(
                    DbError::UnexpectedToken {
                        expected: String::from_str("identifier"),
                        found: describe(&self.current),
                    },
                );
            },
        };
        match self.advance() {
            Ok(()) => Ok(name),
            Err(e) => Err(e),
        }
    }

    /// Passes an expression: a literal. Fails with `UnsupportedExpression`
    /// where no literal stands there.
    pub fn parse_expr(&mut self) -> (res: Result<Expr, DbError>)
        requires
            old(self).wf(),
        ensures
            final(self).wf(),
            final(self).input() == old(self).input(),
            old(self).lexer.pos <= final(self).lexer.pos,
            match res {
                Ok(expr) => s_expr(old(self).input(), old(self).state()) == Ok::<
                    (ExprView, PState),
                    ErrKind,
                >((expr@, final(self).state())) && (final(self).current is EOF || old(
                    self,
                ).lexer.pos < final(self).lexer.pos),
                Err(e) => s_expr(old(self).input(), old(self).state()) == Err::<
                    (ExprView, PState),
                    ErrKind,
                >(err_kind(e)),
            },
    {
        let expr = match &self.current {
            Token::Int(v) => Expr::from_token(Token::Int(*v)),
            Token::Float(s) => Expr::from_token(Token::Float(s.clone())),
            Token::String(s) => Expr::from_token(Token::String(s.clone())),
            _ => {
                return Err(DbError::UnsupportedExpression);
            },
        };
        match self.advance() {
            Ok(()) => Ok(expr),
            Err(e) => Err(e),
        }
    }

    /// Passes `WHERE column = literal`.
    pub fn parse_where(&mut self) -> (res: Result<Expr, DbError>)
        requires
            old(self).wf(),
        ensures
            final(self).wf(),
            final(self).input() == old(self).input(),
            match res {
                Ok(expr) => s_where(old(self).input(), old(self).state()) == Ok::<
                    (ExprView, PState),
                    ErrKind,
                >((expr@, final(self).state())),
                Err(e) => s_where(old(self).input(), old(self).state()) == Err::<
                    (ExprView, PState),
                    ErrKind,
                >(err_kind(e)),
            },
    {
        match self.expect(Token::Where) {
            Ok(()) => {},
            Err(e) => {
                return Err(e);
            },
        }
        let column = match self.expect_ident() {
            Ok(column) => column,
            Err(e) => {
                return Err(e);
            },
        };
        match self.expect(Token::Eq) {
            Ok(()) => {},
            Err(e) => {
                return Err(e);
            },
        }
        let value = match self.parse_expr() {
            Ok(value) => value,
            Err(e) => {
                return Err(e);
            },
        };
        Ok(Expr::Eq { column, value: Box::new(value) })
    }

    /// Passes `SELECT * FROM table [WHERE column = literal];`.
    pub fn parse_select(&mut self) -> (res: Result<Stmt, DbError>)
        requires
            old(self).wf(),
        ensures
            final(self).wf(),
            final(self).input() == old(self).input(),
            match res {
                Ok(stmt) => s_select(old(self).input(), old(self).state()) == Ok::<
                    (StmtView, PState),
                    ErrKind,
                >((stmt@, final(self).state())),
                Err(e) => s_select(old(self).input(), old(self).state()) == Err::<
                    (StmtView, PState),
                    ErrKind,
                >(err_kind(e)),
            },
    {
        match self.expect(Token::Select) {
            Ok(()) => {},
            Err(e) => {
                return Err(e);
            },
        }
        match self.expect(Token::Star) {
            Ok(()) => {},
            Err(e) => {
                return Err(e);
            },
        }
        match self.expect(Token::From) {
            Ok(()) => {},
            Err(e) => {
                return Err(e);
            },
        }
        let table = match self.expect_ident() {
            Ok(table) => table,
            Err(e) => {
                return Err(e);
            },
        };
        let filter = if token_eq(&self.current, &Token::Where) {
            match self.parse_where() {
                Ok(filter) => Some(filter),
                Err(e) => {
                    return Err(e);
                },
            }
        } else {
            None
        };
        match self.expect(Token::Semicolon) {
            Ok(()) => {},
            Err(e) => {
                return Err(e);
            },
        }
        Ok(Stmt::Select { table, filter })
    }

    /// Passes `DELETE FROM table WHERE column = literal;`. Fails with
    /// `ParseError` where the `WHERE` is missing.
    pub fn parse_delete(&mut self) -> (res: Result<Stmt, DbError>)
        requires
            old(self).wf(),
        ensures
            final(self).wf(),
            final(self).input() == old(self).input(),
            match res {
                Ok(stmt) => s_delete(old(self).input(), old(self).state()) == Ok::<
                    (StmtView, PState),
                    ErrKind,
                >((stmt@, final(self).state())),
                Err(e) => s_delete(old(self).input(), old(self).state()) == Err::<
                    (StmtView, PState),
                    ErrKind,
                >(err_kind(e)),
            },
    {
        match self.expect(Token::Delete) {
            Ok(()) => {},
            Err(e) => {
                return Err(e);
            },
        }
        match self.expect(Token::From) {
            Ok(()) => {},
            Err(e) => {
                return Err(e);
            },
        }
        let table = match self.expect_ident() {
            Ok(table) => table,
            Err(e) => {
                return Err(e);
            },
        };
        let filter = if token_eq(&self.current, &Token::Where) {
            match self.parse_where() {
                Ok(filter) => filter,
                Err(e) => {
                    return Err(e);
                },
            }
        } else {
            return Err(DbError::ParseError(String::from_str("DELETE requires WHERE clause")));
        };
        match self.expect(Token::Semicolon) {
            Ok(()) => {},
            Err(e) => {
                return Err(e);
            },
        }
        Ok(Stmt::Delete { table, filter })
    }

    /// Passes the values of an insert, up to the closing parenthesis. Fails
    /// with `ParseError` where neither a comma nor a closing parenthesis
    /// follows a value.
    pub fn parse_values(&mut self) -> (res: Result<Vec<Expr>, DbError>)
        requires
            old(self).wf(),
        ensures
            final(self).wf(),
            final(self).input() == old(self).input(),
            match res {
                Ok(values) => s_values(old(self).input(), old(self).state(), Seq::empty())
                    == Ok::<(Seq<ExprView>, PState), ErrKind>(
                    (exprs_view(values@), final(self).state()),
                ),
                Err(e) => s_values(old(self).input(), old(self).state(), Seq::empty()) == Err::<
                    (Seq<ExprView>, PState),
                    ErrKind,
                >(err_kind(e)),
            },
    {
        let mut values: Vec<Expr> = Vec::new();
        let ghost input = self.input();
        let ghost start = self.state();
        proof {
            assert(exprs_view(values@) =~= Seq::empty());
        }
        loop
            invariant
                self.wf(),
                self.input() == input,
                input == old(self).input(),
                start == old(self).state(),
                s_values(input, start, Seq::empty()) == s_values(
                    input,
                    self.state(),
                    exprs_view(values@),
                ),
            decreases input.len() - self.lexer.pos,
        {
            let ghost st = self.state();
            let ghost before = exprs_view(values@);
            let value = match self.parse_expr() {
                Ok(value) => value,
                Err(e) => {
                    return Err(e);
                },
            };
            values.push(value);
            proof {
                assert(exprs_view(values@) =~= before.push(value@));
            }
            if token_eq(&self.current, &Token::Comma) {
                match self.advance() {
                    Ok(()) => {},
                    Err(e) => {
                        return Err(e);
                    },
                }
            } else if token_eq(&self.current, &Token::RParen) {
                return Ok(values);
            } else {
                return Err(
                    DbError::ParseError(String::from_str("Expected ',' or ')' in VALUES")),
                );
            }
        }
    }

    /// Passes `INSERT INTO table VALUES (literal, ..);`.
    pub fn parse_insert(&mut self) -> (res: Result<Stmt, DbError>)
        requires
            old(self).wf(),
        ensures
            final(self).wf(),
            final(self).input() == old(self).input(),
            match res {
                Ok(stmt) => s_insert(old(self).input(), old(self).state()) == Ok::<
                    (StmtView, PState),
                    ErrKind,
                >((stmt@, final(self).state())),
                Err(e) => s_insert(old(self).input(), old(self).state()) == Err::<
                    (StmtView, PState),
                    ErrKind,
                >(err_kind(e)),
            },
    {
        match self.expect(Token::Insert) {
            Ok(()) => {},
            Err(e) => {
                return Err(e);
            },
        }
        match self.expect(Token::Into) {
            Ok(()) => {},
            Err(e) => {
                return Err(e);
            },
        }
        let table = match self.expect_ident() {
            Ok(table) => table,
            Err(e) => {
                return Err(e);
            },
        };
        match self.expect(Token::Values) {
            Ok(()) => {},
            Err(e) => {
                return Err(e);
            },
        }
        match self.expect(Token::LParen) {
            Ok(()) => {},
            Err(e) => {
                return Err(e);
            },
        }
        let values = match self.parse_values() {
            Ok(values) => values,
            Err(e) => {
                return Err(e);
            },
        };
        match self.expect(Token::RParen) {
            Ok(()) => {},
            Err(e) => {
                return Err(e);
            },
        }
        match self.expect(Token::Semicolon) {
            Ok(()) => {},
            Err(e) => {
                return Err(e);
            },
        }
        Ok(Stmt::Insert { table, values })
    }

    /// Passes the columns of a table, up to and with the closing
    /// parenthesis, and returns them with the position of the primary key,
    /// if one is marked. Fails with `InvalidDataType` where no type follows
    /// a column's name, with `DuplicatePrimaryKey` where a second column is
    /// marked, and with `UnexpectedToken` where neither a comma nor a
    /// closing parenthesis follows a column.
    pub fn parse_columns(&mut self) -> (res: Result<(Vec<Column>, Option<usize>), DbError>)
        requires
            old(self).wf(),
        ensures
            final(self).wf(),
            final(self).input() == old(self).input(),
            match res {
                Ok((columns, primary)) => s_columns(
                    old(self).input(),
                    old(self).state(),
                    Seq::empty(),
                    None,
                ) == Ok::<(Seq<(Seq<char>, DataType)>, Option<int>, PState), ErrKind>(
                    (
                        columns_view(columns@),
                        match primary {
                            Some(p) => Some(p as int),
                            None => None,
                        },
                        final(self).state(),
                    ),
                ) && (primary matches Some(p) ==> p < columns@.len()),
                Err(e) => s_columns(old(self).input(), old(self).state(), Seq::empty(), None)
                    == Err::<(Seq<(Seq<char>, DataType)>, Option<int>, PState), ErrKind>(
                    err_kind(e),
                ),
            },
    {
        let mut columns: Vec<Column> = Vec::new();
        let mut primary: Option<usize> = None;
        let ghost input = self.input();
        let ghost start = self.state();
        proof {
            assert(columns_view(columns@) =~= Seq::empty());
        }
        loop
            invariant
                self.wf(),
                self.input() == input,
                input == old(self).input(),
                start == old(self).state(),
                primary matches Some(p) ==> p < columns@.len(),
                s_columns(input, start, Seq::empty(), None) == s_columns(
                    input,
                    self.state(),
                    columns_view(columns@),
                    match primary {
                        Some(p) => Some(p as int),
                        None => None,
                    },
                ),
            decreases input.len() - self.lexer.pos,
        {
            let ghost st = self.state();
            let ghost before = columns_view(columns@);
            let name = match self.expect_ident() {
                Ok(name) => name,
                Err(e) => {
                    return Err(e);
                },
            };
            let dtype = match &self.current {
                Token::Ident(t) => {
                    let upper = to_uppercase(t.as_str());
                    match type_for(upper.as_str()) {
                        Some(dtype) => dtype,
                        None => {
                            return Err(DbError::InvalidDataType);
                        },
                    }
                },
                _ => {
                    return Err(DbError::InvalidDataType);
                },
            };
            match self.advance() {
                Ok(()) => {},
                Err(e) => {
                    return Err(e);
                },
            }
            let position = columns.len();
            columns.push(Column::new(name.as_str(), dtype));
            proof {
                assert(columns_view(columns@) =~= before.push((name@, dtype)));
            }
            if token_eq(&self.current, &Token::Primary) {
                match self.advance() {
                    Ok(()) => {},
                    Err(e) => {
                        return Err(e);
                    },
                }
                match self.expect(Token::Key) {
                    Ok(()) => {},
                    Err(e) => {
                        return Err(e);
                    },
                }
                if primary.is_some() {
                    return Err(DbError::DuplicatePrimaryKey);
                }
                primary = Some(position);
            }
            if token_eq(&self.current, &Token::Comma) {
                match self.advance() {
                    Ok(()) => {},
                    Err(e) => {
                        return Err(e);
                    },
                }
            } else if token_eq(&self.current, &Token::RParen) {
                match self.advance() {
                    Ok(()) => {},
                    Err(e) => {
                        return Err(e);
                    },
                }
                return Ok((columns, primary));
            } else {
                return Err(
                    DbError::UnexpectedToken {
                        expected: String::from_str("comma or ')'"),
                        found: describe(&self.current),
                    },
                );
            }
        }
    }

    /// Passes `CREATE TABLE table (column type [PRIMARY KEY], ..)`. Fails
    /// with `PrimaryKeyMissing` where no column is marked as primary key.
    pub fn parse_create(&mut self) -> (res: Result<Stmt, DbError>)
        requires
            old(self).wf(),
        ensures
            final(self).wf(),
            final(self).input() == old(self).input(),
            match res {
                Ok(stmt) => s_create(old(self).input(), old(self).state()) == Ok::<
                    (StmtView, PState),
                    ErrKind,
                >((stmt@, final(self).state())),
                Err(e) => s_create(old(self).input(), old(self).state()) == Err::<
                    (StmtView, PState),
                    ErrKind,
                >(err_kind(e)),
            },
    {
        match self.expect(Token::Create) {
            Ok(()) => {},
            Err(e) => {
                return Err(e);
            },
        }
        match self.expect(Token::Table) {
            Ok(()) => {},
            Err(e) => {
                return Err(e);
            },
        }
        let table = match self.expect_ident() {
            Ok(table) => table,
            Err(e) => {
                return Err(e);
            },
        };
        match self.expect(Token::LParen) {
            Ok(()) => {},
            Err(e) => {
                return Err(e);
            },
        }
        let (columns, primary) = match self.parse_columns() {
            Ok(parsed) => parsed,
            Err(e) => {
                return Err(e);
            },
        };
        match primary {
            Some(primary_key) => Ok(Stmt::CreateTable { table, columns, primary_key }),
            None => Err(DbError::PrimaryKeyMissing),
        }
    }

    /// Passes one statement. Fails with `UnsupportedStatement` where the
    /// token read last begins none.
    pub fn parse_stmt(&mut self) -> (res: Result<Stmt, DbError>)
        requires
            old(self).wf(),
        ensures
            final(self).wf(),
            final(self).input() == old(self).input(),
            match res {
                Ok(stmt) => s_stmt(old(self).input(), old(self).state()) == Ok::<
                    (StmtView, PState),
                    ErrKind,
                >((stmt@, final(self).state())),
                Err(e) => s_stmt(old(self).input(), old(self).state()) == Err::<
                    (StmtView, PState),
                    ErrKind,
                >(err_kind(e)),
            },
    {
        match self.current {
            Token::Create => self.parse_create(),
            Token::Insert => self.parse_insert(),
            Token::Select => self.parse_select(),
            Token::Delete => self.parse_delete(),
            _ => Err(DbError::UnsupportedStatement),
        }
    }
}

} // verus!
