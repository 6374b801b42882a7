use rustsql::ast::{
    Ast, AstKind, ColumnDefinition, CreateTableStatement, Expression, ExpressionKind, Statement,
};
use rustsql::lexer::{lex, Location, Token, TokenKind, SEMICOLON_SYMBOL};
use rustsql::parser::{
    parse, parse_column_definitions, parse_create_table_statement, parse_expression,
    parse_expressions, parse_insert_statement, parse_select_statement, parse_statement,
    parse_token, token_from_keyword, token_from_symbol, expect_token, ParseError,
};

fn token(value: &str, kind: TokenKind, col: usize) -> Token {
    Token { loc: Location { col, line: 0 }, kind, value: value.to_string() }
}

#[test]
fn parse_create_table() {
    let expected = Ast {
        statements: vec![Statement::CreateTable(CreateTableStatement {
            name: token("users", TokenKind::IdentifierKind, 13),
            cols: vec![
                ColumnDefinition {
                    name: token("id", TokenKind::IdentifierKind, 20),
                    datatype: token("int", TokenKind::KeywordKind, 23),
                },
                ColumnDefinition {
                    name: token("name", TokenKind::IdentifierKind, 28),
                    datatype: token("text", TokenKind::KeywordKind, 33),
                },
            ],
        })],
    };
    let output = parse("CREATE TABLE users (id INT, name TEXT);").unwrap();
    assert_eq!(output, expected);
    assert_eq!(output.statements[0].kind(), AstKind::CreateTableKind);
    match &output.statements[0] {
        Statement::CreateTable(c) => {
            assert_eq!(c.name.loc, Location { line: 0, col: 13 });
            assert_eq!(c.cols[1].datatype.loc, Location { line: 0, col: 33 });
        },
        _ => panic!("expected a create-table statement"),
    }
}

#[test]
fn parse_insert() {
    let output = parse("INSERT INTO users VALUES (105, 'x');").unwrap();
    assert_eq!(output.statements.len(), 1);
    assert_eq!(output.statements[0].kind(), AstKind::InsertKind);
    match &output.statements[0] {
        Statement::Insert(i) => {
            assert_eq!(i.table.value, "users");
            assert_eq!(i.table.kind, TokenKind::IdentifierKind);
            assert_eq!(
                i.values,
                vec![
                    Expression { literal: token("105", TokenKind::NumericKind, 26), kind: ExpressionKind::LiteralKind },
                    Expression { literal: token("x", TokenKind::StringKind, 31), kind: ExpressionKind::LiteralKind },
                ]
            );
        },
        _ => panic!("expected an insert statement"),
    }
}

#[test]
fn parse_select() {
    let output = parse("SELECT id, name FROM users;").unwrap();
    assert_eq!(output.statements.len(), 1);
    assert_eq!(output.statements[0].kind(), AstKind::SelectKind);
    match &output.statements[0] {
        Statement::Select(s) => {
            assert_eq!(s.item.len(), 2);
            assert_eq!(s.item[0].literal, token("id", TokenKind::IdentifierKind, 7));
            assert_eq!(s.item[1].literal, token("name", TokenKind::IdentifierKind, 11));
            assert_eq!(s.from.value, "users");
            assert_eq!(s.from.kind, TokenKind::IdentifierKind);
        },
        _ => panic!("expected a select statement"),
    }
}

#[test]
fn parse_select_without_from() {
    let output = parse("select 1, 'a';").unwrap();
    match &output.statements[0] {
        Statement::Select(s) => {
            assert_eq!(s.item.len(), 2);
            assert_eq!(s.from, Token::new());
        },
        _ => panic!("expected a select statement"),
    }
}

#[test]
fn parse_several_statements() {
    let output = parse("create table t (a int);; insert into t values (1); select a from t;").unwrap();
    let kinds: Vec<AstKind> = output.statements.iter().map(|s| s.kind()).collect();
    assert_eq!(kinds, vec![AstKind::CreateTableKind, AstKind::InsertKind, AstKind::SelectKind]);
}

#[test]
fn parse_empty_source() {
    assert_eq!(parse("").unwrap().statements.len(), 0);
    assert_eq!(parse("  \n").unwrap().statements.len(), 0);
}

#[test]
fn parse_missing_semicolon_between_statements() {
    assert!(parse("SELECT id FROM users;").is_ok());
    assert!(parse("SELECT name FROM users;").is_ok());
    match parse("SELECT id FROM users SELECT name FROM users;") {
        Err(ParseError::MissingSemicolon { index, got }) => {
            assert_eq!(index, 4);
            assert_eq!(got.value, "select");
            assert_eq!(got.loc, Location { line: 0, col: 21 });
        },
        other => panic!("unexpected {other:?}"),
    }
}

#[test]
fn parse_missing_final_semicolon() {
    match parse("select a from t") {
        Err(ParseError::MissingSemicolon { index, got }) => {
            assert_eq!(index, 4);
            assert_eq!(got.value, "t");
        },
        other => panic!("unexpected {other:?}"),
    }
}

#[test]
fn parse_expected_statement() {
    match parse("select a; drop t;") {
        Err(ParseError::ExpectedStatement { index, got }) => {
            assert_eq!(index, 3);
            assert_eq!(got.value, "drop");
        },
        other => panic!("unexpected {other:?}"),
    }
    match parse(";") {
        Err(ParseError::ExpectedStatement { index, got }) => {
            assert_eq!(index, 0);
            assert_eq!(got.value, ";");
        },
        other => panic!("unexpected {other:?}"),
    }
}

#[test]
fn parse_reports_lex_error() {
    match parse("select @;") {
        Err(ParseError::Lex(e)) => {
            assert_eq!(e.loc, Location { line: 0, col: 7 });
            assert_eq!(e.after, Some("select".to_string()));
        },
        other => panic!("unexpected {other:?}"),
    }
}

#[test]
fn failing_procedures_keep_their_index() {
    let sources = [
        "select a, from t;",
        "select a b;",
        "select a from 1;",
        "insert into t values (1, 2",
        "insert t values (1);",
        "insert into t values 1;",
        "create table t (a int, b);",
        "create table t (a 1);",
        "create t (a int);",
        "create table t (a int",
        "select",
        "( 1 )",
    ];
    let semicolon = token_from_symbol(SEMICOLON_SYMBOL);
    for source in sources {
        let tokens = lex(source).unwrap();
        for start in 0..=tokens.len() + 1 {
            let (s, i, ok) = parse_statement(&tokens, start);
            if !ok {
                assert!(s.is_none());
                assert_eq!(i, start, "{source} at {start}");
            }
            let (s, i, ok) = parse_select_statement(&tokens, start, &semicolon);
            if !ok {
                assert!(s.is_none());
                assert_eq!(i, start);
            }
            let (s, i, ok) = parse_insert_statement(&tokens, start);
            if !ok {
                assert!(s.is_none());
                assert_eq!(i, start);
            }
            let (s, i, ok) = parse_create_table_statement(&tokens, start);
            if !ok {
                assert!(s.is_none());
                assert_eq!(i, start);
            }
            let rparen = token_from_symbol(")");
            let (s, i, ok) = parse_column_definitions(&tokens, start, &rparen);
            if !ok {
                assert!(s.is_none());
                assert_eq!(i, start);
            }
            let (s, i, ok) = parse_expressions(&tokens, start, &vec![rparen]);
            if !ok {
                assert!(s.is_none());
                assert_eq!(i, start);
            }
            let (s, i, ok) = parse_expression(&tokens, start);
            if !ok {
                assert!(s.is_none());
                assert_eq!(i, start);
            }
            let (s, i, ok) = parse_token(&tokens, start, TokenKind::NumericKind);
            if !ok {
                assert!(s.is_none());
                assert_eq!(i, start);
            }
        }
    }
}

#[test]
fn failing_statement_examples() {
    let tokens = lex("insert into t values (1, 2").unwrap();
    assert_eq!(parse_statement(&tokens, 0).1, 0);
    assert!(!parse_statement(&tokens, 0).2);
    let tokens = lex("select a b;").unwrap();
    let (s, i, ok) = parse_statement(&tokens, 0);
    assert!(!ok);
    assert!(s.is_none());
    assert_eq!(i, 0);
    let tokens = lex("select a; x").unwrap();
    let (s, i, ok) = parse_statement(&tokens, 0);
    assert!(ok);
    assert!(s.is_some());
    assert_eq!(i, 2);
}

#[test]
fn expression_list_stops_at_delimiter() {
    let tokens = lex("1, 'b', c)").unwrap();
    let (exprs, i, ok) = parse_expressions(&tokens, 0, &vec![token_from_symbol(")")]);
    assert!(ok);
    assert_eq!(i, 5);
    let values: Vec<String> = exprs.unwrap().into_iter().map(|e| e.literal.value).collect();
    assert_eq!(values, vec!["1", "b", "c"]);
    let (exprs, i, ok) = parse_expressions(&tokens, 5, &vec![token_from_symbol(")")]);
    assert!(ok);
    assert_eq!(i, 5);
    assert!(exprs.unwrap().is_empty());
}

#[test]
fn expression_list_needs_delimiter() {
    let tokens = lex("1, 2").unwrap();
    let (exprs, i, ok) = parse_expressions(&tokens, 0, &vec![token_from_symbol(")")]);
    assert!(!ok);
    assert!(exprs.is_none());
    assert_eq!(i, 0);
}

#[test]
fn column_type_is_any_keyword() {
    let tokens = lex("a boolean, b select)").unwrap();
    let (cols, i, ok) = parse_column_definitions(&tokens, 0, &token_from_symbol(")"));
    assert!(ok);
    assert_eq!(i, 5);
    let cols = cols.unwrap();
    assert_eq!(cols[0].datatype.value, "boolean");
    assert_eq!(cols[1].datatype.value, "select");
}

#[test]
fn where_is_a_keyword_without_grammar() {
    assert!(lex("select a from t where a = 1;").is_ok());
    assert!(matches!(
        parse("select a from t where a = 1;"),
        Err(ParseError::MissingSemicolon { index: 4, .. })
    ));
}

#[test]
fn comparison_tokens() {
    let k = token_from_keyword("from");
    assert_eq!(k.value, "from");
    assert_eq!(k.kind, TokenKind::KeywordKind);
    let s = token_from_symbol(",");
    assert_eq!(s.kind, TokenKind::SymbolKind);
    let tokens = lex("from ,").unwrap();
    assert!(expect_token(&tokens, 0, &k));
    assert!(!expect_token(&tokens, 0, &s));
    assert!(expect_token(&tokens, 1, &s));
    assert!(!expect_token(&tokens, 2, &s));
    let (t, i, ok) = parse_token(&tokens, 0, TokenKind::KeywordKind);
    assert!(ok);
    assert_eq!(i, 1);
    assert_eq!(t.unwrap().value, "from");
}
