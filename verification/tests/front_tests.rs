use ensodb::api::{check_row, find_column, make_key, make_prefix, Enso};
use ensodb::codec::RowCodec;
use ensodb::engine::Engine;
use ensodb::error::DbError;
use ensodb::pretty::{pretty_rows, separator};
use ensodb::repl::{format_response, normalize_input, parse_meta_command, prompt, MetaCommand};
use ensodb::schema::SchemaManager;
use ensodb::sql::ast::{Expr, QueryResult, Stmt};
use ensodb::sql::lexer::{Lexer, Token};
use ensodb::sql::parser::{describe, Parser};
use ensodb::storage::Storage;
use ensodb::tcp::{frame_response, EOF_MARKER};
use ensodb::types::{Column, DataType, TableSchema, Value};

fn tokens(input: &str) -> Vec<Token> {
    let mut lexer = Lexer::new(input);
    let mut out = Vec::new();
    loop {
        let t = lexer.next_token().unwrap();
        let end = t == Token::EOF;
        out.push(t);
        if end {
            return out;
        }
    }
}

fn parse(input: &str) -> Result<Stmt, DbError> {
    let mut parser = Parser::new(Lexer::new(input))?;
    parser.parse_stmt()
}

fn users() -> TableSchema {
    TableSchema {
        name: "users".to_string(),
        columns: vec![
            Column::new("id", DataType::Int),
            Column::new("name", DataType::String),
            Column::new("ok", DataType::Bool),
            Column::new("score", DataType::Float),
        ],
        primary_key: 0,
    }
}

#[test]
fn lexer_reads_keywords_symbols_and_literals() {
    assert_eq!(
        tokens("select * FROM users where id = 42;"),
        vec![
            Token::Select,
            Token::Star,
            Token::From,
            Token::Ident("users".to_string()),
            Token::Where,
            Token::Ident("id".to_string()),
            Token::Eq,
            Token::Int(42),
            Token::Semicolon,
            Token::EOF,
        ]
    );
    assert_eq!(
        tokens("  Create TABLE t_1 (a, \"x y\" 3.25)"),
        vec![
            Token::Create,
            Token::Table,
            Token::Ident("t_1".to_string()),
            Token::LParen,
            Token::Ident("a".to_string()),
            Token::Comma,
            Token::String("x y".to_string()),
            Token::Float("3.25".to_string()),
            Token::RParen,
            Token::EOF,
        ]
    );
    assert_eq!(
        tokens("primary key insert into values delete"),
        vec![
            Token::Primary,
            Token::Key,
            Token::Insert,
            Token::Into,
            Token::Values,
            Token::Delete,
            Token::EOF
        ]
    );
    assert_eq!(tokens(""), vec![Token::EOF]);
    assert_eq!(tokens("   \t\n"), vec![Token::EOF]);
}

#[test]
fn lexer_reports_errors() {
    let mut lexer = Lexer::new("\"open");
    assert_eq!(lexer.next_token(), Err("Undetermined string literal".to_string()));
    assert_eq!(lexer.next_token(), Ok(Token::EOF));
    let mut lexer = Lexer::new("?");
    assert_eq!(lexer.next_token(), Err("Unexpected character: ?".to_string()));
    let mut lexer = Lexer::new("9223372036854775807 9223372036854775808");
    assert_eq!(lexer.next_token(), Ok(Token::Int(i64::MAX)));
    assert!(lexer.next_token().is_err());
    assert_eq!(lexer.next_token(), Ok(Token::EOF));
}

#[test]
fn lexer_steps() {
    let mut lexer = Lexer::new("  ab1_c d");
    assert_eq!(lexer.peek(), Some(' '));
    lexer.skip_whitespace();
    assert_eq!(lexer.pos, 2);
    assert_eq!(lexer.read_ident(), "ab1_c");
    assert_eq!(lexer.pos, 7);
    lexer.advance();
    assert_eq!(lexer.peek(), Some('d'));
    lexer.advance();
    assert_eq!(lexer.peek(), None);
    lexer.advance();
    assert_eq!(lexer.pos, 9);
    assert_eq!(Lexer::keyword_or_ident("wHeRe".to_string()), Token::Where);
    assert_eq!(Lexer::keyword_or_ident("whereto".to_string()), Token::Ident("whereto".to_string()));
    assert_eq!(Lexer::keyword_of("KEY", "key".to_string()), Token::Key);
    let mut lexer = Lexer::new("12.5.1x");
    assert_eq!(lexer.read_number(), Ok(Token::Float("12.5.1".to_string())));
    let mut lexer = Lexer::new("\"a\"b");
    assert_eq!(lexer.read_string(), Ok(Token::String("a".to_string())));
    assert_eq!(lexer.pos, 3);
}

#[test]
fn parser_reads_create_table() {
    assert_eq!(
        parse("CREATE TABLE users (id INT PRIMARY KEY, name string, ok Bool, score float)"),
        Ok(Stmt::CreateTable {
            table: "users".to_string(),
            columns: users().columns,
            primary_key: 0,
        })
    );
    assert_eq!(
        parse("create table t (a int, b int primary key)"),
        Ok(Stmt::CreateTable {
            table: "t".to_string(),
            columns: vec![Column::new("a", DataType::Int), Column::new("b", DataType::Int)],
            primary_key: 1,
        })
    );
    assert_eq!(parse("create table t (a int)"), Err(DbError::PrimaryKeyMissing));
    assert_eq!(
        parse("create table t (a int primary key, b int primary key)"),
        Err(DbError::DuplicatePrimaryKey)
    );
    assert_eq!(parse("create table t (a text primary key)"), Err(DbError::InvalidDataType));
    assert_eq!(parse("create table t (a 5)"), Err(DbError::InvalidDataType));
    assert!(matches!(parse("create table t (a int;"), Err(DbError::UnexpectedToken { .. })));
    assert!(matches!(parse("create t"), Err(DbError::UnexpectedToken { .. })));
}

#[test]
fn parser_reads_insert_select_delete() {
    assert_eq!(
        parse("INSERT INTO users VALUES (1, \"bob\", 2.5);"),
        Ok(Stmt::Insert {
            table: "users".to_string(),
            values: vec![
                Expr::Literal(Value::Int(1)),
                Expr::Literal(Value::String("bob".to_string())),
                Expr::FloatLiteral("2.5".to_string()),
            ],
        })
    );
    assert_eq!(
        parse("select * from users;"),
        Ok(Stmt::Select { table: "users".to_string(), filter: None })
    );
    assert_eq!(
        parse("select * from users where id = 7;"),
        Ok(Stmt::Select {
            table: "users".to_string(),
            filter: Some(Expr::Eq {
                column: "id".to_string(),
                value: Box::new(Expr::Literal(Value::Int(7))),
            }),
        })
    );
    assert_eq!(
        parse("delete from users where name = \"bob\";"),
        Ok(Stmt::Delete {
            table: "users".to_string(),
            filter: Expr::Eq {
                column: "name".to_string(),
                value: Box::new(Expr::Literal(Value::String("bob".to_string()))),
            },
        })
    );
    assert_eq!(
        parse("delete from users;"),
        Err(DbError::ParseError("DELETE requires WHERE clause".to_string()))
    );
    assert_eq!(
        parse("insert into t values (1 2);"),
        Err(DbError::ParseError("Expected ',' or ')' in VALUES".to_string()))
    );
    assert_eq!(parse("insert into t values (a);"), Err(DbError::UnsupportedExpression));
    assert_eq!(parse("update t;"), Err(DbError::UnsupportedStatement));
    assert_eq!(parse(";"), Err(DbError::UnsupportedStatement));
    assert_eq!(
        parse("select * from users"),
        Err(DbError::UnexpectedToken {
            expected: "Semicolon".to_string(),
            found: "EOF".to_string()
        })
    );
    assert_eq!(parse("select * from \"x"), Err(DbError::ParseError(
        "Undetermined string literal".to_string()
    )));
    assert!(matches!(Parser::new(Lexer::new("#")), Err(DbError::ParseError(_))));
}

#[test]
fn tokens_are_named_in_errors() {
    assert_eq!(describe(&Token::Ident("x".to_string())), "Ident(x)");
    assert_eq!(describe(&Token::Int(-12)), "Int(-12)");
    assert_eq!(describe(&Token::Int(i64::MIN)), "Int(-9223372036854775808)");
    assert_eq!(describe(&Token::Float("1.5".to_string())), "Float(1.5)");
    assert_eq!(describe(&Token::String("s".to_string())), "String(s)");
    assert_eq!(describe(&Token::LParen), "LParen");
}

#[test]
fn expressions_evaluate() {
    assert_eq!(Expr::Literal(Value::Int(3)).eval(), Ok(Value::Int(3)));
    assert_eq!(Expr::FloatLiteral("1.0".to_string()).eval(), Err(DbError::UnsupportedExpression));
    let eq = Expr::Eq { column: "a".to_string(), value: Box::new(Expr::Literal(Value::Null)) };
    assert_eq!(eq.eval(), Err(DbError::UnsupportedExpression));
    assert_eq!(Expr::from_token(Token::Int(4)), Expr::Literal(Value::Int(4)));
    assert_eq!(
        Expr::from_token(Token::Float("4.5".to_string())),
        Expr::FloatLiteral("4.5".to_string())
    );
}

#[test]
fn values_match_types_and_have_text() {
    assert!(Value::Int(1).matches(&DataType::Int));
    assert!(!Value::Int(1).matches(&DataType::String));
    assert!(Value::Null.matches(&DataType::Float));
    assert!(Value::Float(0).matches(&DataType::Float));
    assert!(!Value::Bool(true).matches(&DataType::Int));
    assert_eq!(Value::Int(-7).text(), Some("i:-7".to_string()));
    assert_eq!(Value::Bool(false).text(), Some("b:false".to_string()));
    assert_eq!(Value::String("x".to_string()).text(), Some("s:x".to_string()));
    assert_eq!(Value::Null.text(), Some(String::new()));
    assert_eq!(Value::Float(1).text(), None);
    assert_eq!(Value::Int(258).to_key_bytes(), Ok(vec![0, 0, 0, 0, 0, 0, 1, 2]));
    assert_eq!(Value::Int(-1).to_key_bytes(), Ok(vec![255; 8]));
    assert_eq!(Value::String("ab".to_string()).to_key_bytes(), Ok(b"ab".to_vec()));
    assert_eq!(Value::Null.to_key_bytes(), Err(DbError::InvalidPrimaryKeyType));
    assert_eq!(Value::Bool(true).to_key_bytes(), Err(DbError::InvalidPrimaryKeyType));
}

#[test]
fn row_codec_lays_out_values() {
    let row = vec![
        Value::Int(-2),
        Value::String("hi".to_string()),
        Value::Bool(true),
        Value::Float(0x3ff0_0000_0000_0000),
        Value::Null,
    ];
    let bytes = RowCodec::encode(&row).unwrap();
    assert_eq!(
        bytes,
        vec![
            1, 255, 255, 255, 255, 255, 255, 255, 254, // -2
            1, 0, 0, 0, 2, b'h', b'i', // "hi"
            1, 1, // true
            1, 0x3f, 0xf0, 0, 0, 0, 0, 0, 0, // 1.0
            0, // no value
        ]
    );
}

#[test]
fn row_codec_round_trip() {
    let schema = users();
    let row = vec![
        Value::Int(i64::MIN),
        Value::String("b\u{00f6}b".to_string()),
        Value::Bool(false),
        Value::Float(f64::to_bits(-2.5)),
    ];
    let bytes = RowCodec::encode(&row).unwrap();
    assert_eq!(RowCodec::decode(&bytes, &schema), Ok(row));
    let nulls = vec![Value::Null, Value::Null, Value::Null, Value::Null];
    let bytes = RowCodec::encode(&nulls).unwrap();
    assert_eq!(bytes, vec![0, 0, 0, 0]);
    assert_eq!(RowCodec::decode(&bytes, &schema), Ok(nulls));
}

#[test]
fn row_codec_rejects_bad_bytes() {
    let schema = users();
    assert!(matches!(RowCodec::decode(&[], &schema), Err(DbError::Corrupt(_))));
    assert!(matches!(RowCodec::decode(&[1, 0, 0], &schema), Err(DbError::Corrupt(_))));
    assert!(matches!(
        RowCodec::decode(&[0, 1, 0, 0, 0, 9, b'x'], &schema),
        Err(DbError::Corrupt(_))
    ));
    assert_eq!(RowCodec::decode(&[0, 1, 0, 0, 0, 1, 0xff, 0, 0], &schema), Err(DbError::Utf8));
    assert_eq!(
        RowCodec::decode_value(&[9, 1, 7], 1, DataType::Bool),
        Ok((Value::Bool(true), 2))
    );
}

#[test]
fn schema_manager_keeps_tables_by_database() {
    let mut m = SchemaManager::new();
    assert_eq!(m.get("db", "users").err(), Some(DbError::NoDatabaseSelected));
    assert_eq!(m.insert("db", "users", users()), Ok(()));
    assert_eq!(m.get("db", "users"), Ok(&users()));
    assert_eq!(m.get("db", "other").err(), Some(DbError::TableNotFound));
    assert_eq!(m.get("other", "users").err(), Some(DbError::NoDatabaseSelected));
    let mut changed = users();
    changed.primary_key = 1;
    m.insert("db", "users", changed.clone()).unwrap();
    assert_eq!(m.get("db", "users"), Ok(&changed));
    let mut second = users();
    second.name = "second".to_string();
    m.load_db("db2", vec![users(), second.clone(), changed.clone()]).unwrap();
    assert_eq!(m.get("db2", "users"), Ok(&changed));
    assert_eq!(m.get("db2", "second"), Ok(&second));
    assert_eq!(m.get("db", "users"), Ok(&changed));
    m.load_db("db", vec![]).unwrap();
    assert_eq!(m.get("db", "users").err(), Some(DbError::TableNotFound));
}

#[test]
fn separator_and_table() {
    assert_eq!(separator(&[2, 3]), "+----++-----+");
    assert_eq!(separator(&[]), "");
    let schema = TableSchema {
        name: "t".to_string(),
        columns: vec![Column::new("id", DataType::Int), Column::new("n", DataType::String)],
        primary_key: 0,
    };
    let rows = vec![
        vec!["i:1".to_string(), "s:bob".to_string()],
        vec!["i:22".to_string(), "".to_string()],
    ];
    let expected = "+------++-------+\n\
                    | id   | n     |\n\
                    +------++-------+\n\
                    | i:1 | s:bob |\n\
                    | i:22 |  |\n\
                    +------++-------+\n\
                    (2 rows)";
    assert_eq!(pretty_rows(&schema, &rows), expected);
    assert_eq!(pretty_rows(&schema, &vec![]), "+----++---+\n| id | n |\n+----++---+\n+----++---+\n(0 rows)");
}

#[test]
fn shell_lines() {
    assert_eq!(normalize_input("  select 1 ;; \n"), "select 1");
    assert_eq!(normalize_input(";"), "");
    assert_eq!(normalize_input("   "), "");
    assert_eq!(normalize_input("a;b"), "a;b");
    assert_eq!(parse_meta_command("select * from t;"), MetaCommand::NotMeta);
    assert_eq!(parse_meta_command(""), MetaCommand::NotMeta);
    assert_eq!(parse_meta_command(".exit"), MetaCommand::Exit);
    assert_eq!(parse_meta_command(".exit ;"), MetaCommand::Exit);
    assert_eq!(parse_meta_command(".help"), MetaCommand::Help);
    assert_eq!(parse_meta_command(".open   shop "), MetaCommand::Open("shop".to_string()));
    assert_eq!(parse_meta_command(".open"), MetaCommand::Unknown);
    assert_eq!(parse_meta_command(".open a b"), MetaCommand::Unknown);
    assert_eq!(parse_meta_command(".tables"), MetaCommand::Unknown);
    assert_eq!(frame_response("ok\n".to_string()), "ok\n\n<ENSO_EOF>\n");
    assert_eq!(EOF_MARKER, "<ENSO_EOF>");
}

#[test]
fn keys_of_rows() {
    assert_eq!(make_prefix("db", "users"), "db:users:");
    assert_eq!(make_key("db", "users", &Value::Int(5)), Some("db:users:i:5".to_string()));
    assert_eq!(
        make_key("db", "users", &Value::String("a".to_string())),
        Some("db:users:s:a".to_string())
    );
    assert_eq!(make_key("db", "users", &Value::Float(0)), None);
    assert_eq!(find_column(&users().columns, "name"), Some(1));
    assert_eq!(find_column(&users().columns, "nope"), None);
    let row = vec![Value::Int(1), Value::Null, Value::Bool(true), Value::Float(0)];
    assert_eq!(check_row(&users(), &row), Ok(()));
    assert_eq!(check_row(&users(), &row[..3].to_vec()), Err(DbError::ColumnCountMismatch));
    let bad = vec![Value::Int(1), Value::Int(2), Value::Int(3), Value::Float(0)];
    assert_eq!(
        check_row(&users(), &bad),
        Err(DbError::TypeMismatch { column: "name".to_string() })
    );
}

#[test]
fn tables_insert_and_select() {
    let mut db = Enso::new();
    assert_eq!(prompt(&db), "[no-db] >");
    assert_eq!(db.current_db(), "");
    assert_eq!(
        db.create_table("users", users().columns, "id"),
        Err(DbError::NoDatabaseSelected)
    );
    assert_eq!(db.select_all(), Err(DbError::NoDatabaseSelected));
    let mut db = Enso::open("shop", Engine::open(Storage::with_max_file_size(60), 3), vec![])
        .unwrap();
    assert_eq!(prompt(&db), "[shop] >");
    assert_eq!(db.use_table("users"), Err(DbError::TableNotFound));
    assert_eq!(db.insert_at(vec![Value::Int(1)], 1), Err(DbError::NoTableSelected));
    assert_eq!(db.select_all(), Err(DbError::NoTableSelected));
    assert_eq!(db.create_table("users", users().columns, "nope"), Err(DbError::InvalidPrimaryKey));
    assert_eq!(db.create_table("users", users().columns, "id"), Ok(()));
    assert_eq!(db.table, Some("users".to_string()));
    assert_eq!(db.schema.get("shop", "users"), Ok(&users()));
    assert_eq!(db.use_table("users"), Ok(()));

    let bob = vec![
        Value::Int(1),
        Value::String("bob".to_string()),
        Value::Bool(true),
        Value::Float(f64::to_bits(1.5)),
    ];
    let eve = vec![Value::Int(2), Value::String("eve".to_string()), Value::Null, Value::Null];
    db.insert_at(bob.clone(), 10).unwrap();
    db.insert_into_at("users", eve.clone(), 11).unwrap();
    assert_eq!(db.engine.get_raw("shop:users:i:1"), Some(RowCodec::encode(&bob).unwrap()));
    assert_eq!(db.select_by_pk(Value::Int(1)), Ok(Some(bob.clone())));
    assert_eq!(db.select_by_pk_from("users", Value::Int(2)), Ok(Some(eve.clone())));
    assert_eq!(db.select_by_pk(Value::Int(3)), Ok(None));
    assert_eq!(db.select_by_pk(Value::Float(0)), Err(DbError::InvalidPrimaryKeyType));
    assert_eq!(
        db.select_by_pk_from("ghosts", Value::Int(1)),
        Err(DbError::TableNotFound)
    );
    let mut all = db.select_all().unwrap();
    all.sort_by_key(|row| match &row[0] {
        Value::Int(v) => *v,
        _ => 0,
    });
    assert_eq!(all, vec![bob.clone(), eve.clone()]);
    assert_eq!(db.select_all_from("users").unwrap().len(), 2);

    assert_eq!(
        db.insert_at(vec![Value::Int(1)], 12),
        Err(DbError::ColumnCountMismatch)
    );
    assert_eq!(
        db.insert_at(
            vec![Value::Int(1), Value::Int(2), Value::Null, Value::Null],
            12
        ),
        Err(DbError::TypeMismatch { column: "name".to_string() })
    );
    assert_eq!(
        db.insert_into_at("ghosts", bob.clone(), 12),
        Err(DbError::TableNotFound)
    );

    let texts = vec![vec![
        "i:1".to_string(),
        "s:bob".to_string(),
        "b:true".to_string(),
        "f:1.5".to_string(),
    ]];
    let rows = QueryResult::Rows { table: "users".to_string(), rows: Some(vec![bob.clone()]) };
    let shown = format_response(&db, &rows, &texts).unwrap();
    assert_eq!(
        shown,
        "+-----++-------++--------++-------+\n\
         | id  | name  | ok     | score |\n\
         +-----++-------++--------++-------+\n\
         | i:1 | s:bob | b:true | f:1.5 |\n\
         +-----++-------++--------++-------+\n\
         (1 rows)"
    );
    assert_eq!(
        format_response(&db, &QueryResult::Affected(3), &vec![]),
        Ok("3 row(s) affected\n".to_string())
    );
    let none = QueryResult::Rows { table: "users".to_string(), rows: None };
    assert_eq!(format_response(&db, &none, &vec![]), Ok("Empty set\n".to_string()));
    let empty = QueryResult::Rows { table: "users".to_string(), rows: Some(vec![]) };
    assert_eq!(format_response(&db, &empty, &vec![]), Ok("Empty set\n".to_string()));
    let ghosts = QueryResult::Rows { table: "ghosts".to_string(), rows: Some(vec![bob]) };
    assert_eq!(format_response(&db, &ghosts, &texts), Err(DbError::TableNotFound));
}

#[test]
fn statements_are_carried_out() {
    let mut db = Enso::open("shop", Engine::open(Storage::with_max_file_size(60), 3), vec![])
        .unwrap();
    let made = db
        .execute_at(parse("create table t (name string, id int primary key)").unwrap(), 1)
        .unwrap();
    assert_eq!(made.result, QueryResult::Affected(0));
    assert!(!made.compaction_due);
    assert_eq!(db.key_column("t"), Ok("id".to_string()));
    assert_eq!(db.key_column("u"), Err(DbError::TableNotFound));

    let put = db.execute_at(parse("insert into t values (\"ann\", 7);").unwrap(), 2).unwrap();
    assert_eq!(put.result, QueryResult::Affected(1));
    db.execute_at(parse("insert into t values (\"bob\", 8);").unwrap(), 3).unwrap();
    assert_eq!(db.engine.get_raw("shop:t:i:7").is_some(), true);

    let one = db.execute_at(parse("select * from t where id = 7;").unwrap(), 4).unwrap();
    assert_eq!(
        one.result,
        QueryResult::Rows {
            table: "t".to_string(),
            rows: Some(vec![vec![Value::String("ann".to_string()), Value::Int(7)]]),
        }
    );
    let none = db.execute_at(parse("select * from t where id = 9;").unwrap(), 4).unwrap();
    assert_eq!(none.result, QueryResult::Rows { table: "t".to_string(), rows: None });
    let all = db.execute_at(parse("select * from t;").unwrap(), 4).unwrap();
    match all.result {
        QueryResult::Rows { rows: Some(rows), .. } => assert_eq!(rows.len(), 2),
        other => panic!("no rows: {:?}", other),
    }

    assert_eq!(
        db.execute_at(parse("select * from t where name = \"ann\";").unwrap(), 5).err(),
        Some(DbError::UnsupportedFilter)
    );
    assert_eq!(
        db.execute_at(parse("insert into t values (1.5, 7);").unwrap(), 5).err(),
        Some(DbError::UnsupportedExpression)
    );
    assert_eq!(
        db.execute_at(parse("insert into t values (7, 7);").unwrap(), 5).err(),
        Some(DbError::TypeMismatch { column: "name".to_string() })
    );

    let gone = db.execute_at(parse("delete from t where id = 7;").unwrap(), 6).unwrap();
    assert_eq!(gone.result, QueryResult::Affected(1));
    let again = db.execute_at(parse("delete from t where id = 7;").unwrap(), 7).unwrap();
    assert_eq!(again.result, QueryResult::Affected(0));
    assert_eq!(db.select_by_pk_from("t", Value::Int(7)), Ok(None));
    assert_eq!(db.delete_by_pk_from_at("t", Value::Int(8), 8), Ok((true, false)));
    assert_eq!(db.select_all_from("t"), Ok(vec![]));
    assert_eq!(db.insert_into("t", vec![Value::String("cy".to_string()), Value::Int(1)]).is_ok(), true);
    db.use_table("t").unwrap();
    assert_eq!(db.insert(vec![Value::Null, Value::Int(2)]).is_ok(), true);
    assert_eq!(db.select_all().unwrap().len(), 2);
}
