use rustsql::lexer::{
    lex, lex_character_delimited, lex_identifier, lex_keyword, lex_numeric, lex_string, lex_symbol,
    longest_match, Cursor, Location, Token, TokenKind,
};

fn values(source: &str) -> Vec<(String, TokenKind)> {
    lex(source).unwrap().into_iter().map(|t| (t.value, t.kind)).collect()
}

#[test]
fn numeric_accepted() {
    let cases = [
        "105", "105 ", "123.", "123.145", "1e5", "1.e21", "1.1e2", "1.1e-2", "1.1e+2", "1e-1", ".1",
        "4.",
    ];
    for case in cases {
        let (token, cursor, ok) = lex_numeric(case, Cursor::new());
        assert!(ok, "{case}");
        let token = token.unwrap();
        assert_eq!(token.value, case.trim());
        assert_eq!(token.kind, TokenKind::NumericKind);
        assert_eq!(cursor.pointer, case.trim().len());
        assert_eq!(cursor.loc.col, case.trim().len());
    }
}

#[test]
fn numeric_rejected() {
    for case in ["e4", "1..", "1ee4", " 1", "", "1e", "a1"] {
        let (token, cursor, ok) = lex_numeric(case, Cursor::new());
        assert!(!ok, "{case}");
        assert!(token.is_none());
        assert_eq!(cursor.pointer, 0);
    }
}

#[test]
fn numeric_stops_at_other_character() {
    let (token, cursor, ok) = lex_numeric("12,3", Cursor::new());
    assert!(ok);
    assert_eq!(token.unwrap().value, "12");
    assert_eq!(cursor.pointer, 2);
}

#[test]
fn numeric_from_later_cursor() {
    let start = Cursor { pointer: 4, loc: Location { line: 2, col: 4 } };
    let (token, cursor, ok) = lex_numeric("abc 42;", start);
    assert!(ok);
    let token = token.unwrap();
    assert_eq!(token.value, "42");
    assert_eq!(token.loc, Location { line: 2, col: 4 });
    assert_eq!(cursor, Cursor { pointer: 6, loc: Location { line: 2, col: 6 } });
}

#[test]
fn string_accepted() {
    for (case, expected) in [("'abc'", "abc"), ("'a b'", "a b"), ("'a' ", "a"), ("''", "")] {
        let (token, _, ok) = lex_string(case, Cursor::new());
        assert!(ok, "{case}");
        let token = token.unwrap();
        assert_eq!(token.value, expected);
        assert_eq!(token.kind, TokenKind::StringKind);
    }
}

#[test]
fn string_doubled_quote_is_one_quote() {
    let (token, cursor, ok) = lex_string("'a '' b'", Cursor::new());
    assert!(ok);
    assert_eq!(token.unwrap().value, "a ' b");
    assert_eq!(cursor.pointer, 8);
    assert_eq!(cursor.loc.col, 8);
}

#[test]
fn string_rejected() {
    for case in ["a", "'", "", " 'foo'", "'abc", "'a''"] {
        let (token, cursor, ok) = lex_string(case, Cursor::new());
        assert!(!ok, "{case}");
        assert!(token.is_none());
        assert_eq!(cursor, Cursor::new());
    }
}

#[test]
fn character_delimited_with_other_delimiter() {
    let (token, cursor, ok) = lex_character_delimited("|x||y| z", Cursor::new(), '|');
    assert!(ok);
    assert_eq!(token.unwrap().value, "x|y");
    assert_eq!(cursor.pointer, 6);
}

#[test]
fn symbol_accepted() {
    for case in ["=", "||", "<>", "+", ",", "(", ")", ";", "*"] {
        let (token, cursor, ok) = lex_symbol(case, Cursor::new());
        assert!(ok, "{case}");
        let token = token.unwrap();
        assert_eq!(token.value, case);
        assert_eq!(token.kind, TokenKind::SymbolKind);
        assert_eq!(cursor.pointer, case.len());
    }
}

#[test]
fn symbol_rejected() {
    for case in ["<", ">", "|", "a", ""] {
        let (token, cursor, ok) = lex_symbol(case, Cursor::new());
        assert!(!ok, "{case}");
        assert!(token.is_none());
        assert_eq!(cursor, Cursor::new());
    }
}

#[test]
fn symbol_scanner_skips_whitespace() {
    let (token, cursor, ok) = lex_symbol(" x", Cursor::new());
    assert!(ok);
    assert!(token.is_none());
    assert_eq!(cursor, Cursor { pointer: 1, loc: Location { line: 0, col: 1 } });

    let (token, cursor, ok) = lex_symbol("\tx", Cursor::new());
    assert!(ok);
    assert!(token.is_none());
    assert_eq!(cursor, Cursor { pointer: 1, loc: Location { line: 0, col: 1 } });

    let start = Cursor { pointer: 3, loc: Location { line: 0, col: 3 } };
    let (token, cursor, ok) = lex_symbol("abc\nx", start);
    assert!(ok);
    assert!(token.is_none());
    assert_eq!(cursor, Cursor { pointer: 4, loc: Location { line: 1, col: 0 } });
}

#[test]
fn identifier_accepted() {
    let cases = [
        ("a", "a"),
        ("abc", "abc"),
        ("abc ", "abc"),
        ("\" abc \"", " abc "),
        ("a9$", "a9$"),
        ("a_b", "a_b"),
        ("userName", "username"),
        ("\"userName\"", "userName"),
        ("\"say \"\"hi\"\"\"", "say \"hi\""),
    ];
    for (input, expected) in cases {
        let (token, _, ok) = lex_identifier(input, Cursor::new());
        assert!(ok, "{input}");
        let token = token.unwrap();
        assert_eq!(token.value, expected);
        assert_eq!(token.kind, TokenKind::IdentifierKind);
    }
}

#[test]
fn identifier_rejected() {
    for input in ["\"", "_sadsfa", "9sadsfa", " abc", "", "$a"] {
        let (token, cursor, ok) = lex_identifier(input, Cursor::new());
        assert!(!ok, "{input}");
        assert!(token.is_none());
        assert_eq!(cursor, Cursor::new());
    }
}

#[test]
fn keyword_accepted() {
    for case in ["select ", "from", "as", "SELECT", "into", "Values", "boolean"] {
        let (token, cursor, ok) = lex_keyword(case, Cursor::new());
        assert!(ok, "{case}");
        let token = token.unwrap();
        assert_eq!(token.value, case.trim().to_lowercase());
        assert_eq!(token.kind, TokenKind::KeywordKind);
        assert_eq!(cursor.pointer, case.trim().len());
    }
}

#[test]
fn keyword_true_false_are_boolean() {
    for case in ["true", "FALSE"] {
        let (token, _, ok) = lex_keyword(case, Cursor::new());
        assert!(ok);
        let token = token.unwrap();
        assert_eq!(token.value, case.to_lowercase());
        assert_eq!(token.kind, TokenKind::BooleanKind);
    }
}

#[test]
fn keyword_rejected() {
    for case in [" into", "flubbrety", "a", "sel", ""] {
        let (token, cursor, ok) = lex_keyword(case, Cursor::new());
        assert!(!ok, "{case}");
        assert!(token.is_none());
        assert_eq!(cursor, Cursor::new());
    }
}

#[test]
fn longest_match_prefers_longest() {
    let options = vec!["in", "int", "into", "i"];
    assert_eq!(longest_match("INTO x", Cursor::new(), &options), "into");
    assert_eq!(longest_match("integer", Cursor::new(), &options), "int");
    assert_eq!(longest_match("inx", Cursor::new(), &options), "in");
    assert_eq!(longest_match("x", Cursor::new(), &options), "");
    assert_eq!(longest_match("", Cursor::new(), &options), "");
    let space = Cursor { pointer: 1, loc: Location { line: 0, col: 1 } };
    assert_eq!(longest_match("x in", space, &options), "");
    let word = Cursor { pointer: 2, loc: Location { line: 0, col: 2 } };
    assert_eq!(longest_match("x in", word, &options), "in");
}

#[test]
fn whitespace_only_gives_no_tokens() {
    for case in ["", " ", "\t", "\n", "  \n\t \n"] {
        assert!(lex(case).unwrap().is_empty(), "{case:?}");
    }
}

#[test]
fn not_equal_is_one_symbol() {
    let tokens = lex("<>").unwrap();
    assert_eq!(tokens.len(), 1);
    assert_eq!(tokens[0].value, "<>");
    assert_eq!(tokens[0].kind, TokenKind::SymbolKind);
}

#[test]
fn select_is_one_keyword() {
    let tokens = lex("select").unwrap();
    assert_eq!(tokens.len(), 1);
    assert_eq!(tokens[0].value, "select");
    assert_eq!(tokens[0].kind, TokenKind::KeywordKind);
}

#[test]
fn lex_select_identifier() {
    let tokens = lex("select a").unwrap();
    let expected = vec![
        Token { loc: Location { col: 0, line: 0 }, value: "select".to_string(), kind: TokenKind::KeywordKind },
        Token { loc: Location { col: 7, line: 0 }, value: "a".to_string(), kind: TokenKind::IdentifierKind },
    ];
    assert_eq!(tokens, expected);
    assert_eq!(tokens[1].loc, Location { col: 7, line: 0 });
}

#[test]
fn lex_select_boolean() {
    assert_eq!(
        values("select true"),
        vec![("select".to_string(), TokenKind::KeywordKind), ("true".to_string(), TokenKind::BooleanKind)]
    );
}

#[test]
fn lex_select_number() {
    let tokens = lex("select 1").unwrap();
    assert_eq!(tokens[1].value, "1");
    assert_eq!(tokens[1].kind, TokenKind::NumericKind);
    assert_eq!(tokens[1].loc, Location { col: 7, line: 0 });
}

#[test]
fn lex_concatenation() {
    let tokens = lex("select 'foo' || 'bar';").unwrap();
    let expected = [
        ("select", TokenKind::KeywordKind, 0),
        ("foo", TokenKind::StringKind, 7),
        ("||", TokenKind::SymbolKind, 13),
        ("bar", TokenKind::StringKind, 16),
        (";", TokenKind::SymbolKind, 21),
    ];
    assert_eq!(tokens.len(), expected.len());
    for (t, (value, kind, col)) in tokens.iter().zip(expected) {
        assert_eq!(t.value, value);
        assert_eq!(t.kind, kind);
        assert_eq!(t.loc, Location { line: 0, col });
    }
}

#[test]
fn lex_create_table() {
    let tokens = lex("CREATE TABLE u (id INT, name TEXT)").unwrap();
    let expected = [
        ("create", TokenKind::KeywordKind, 0),
        ("table", TokenKind::KeywordKind, 7),
        ("u", TokenKind::IdentifierKind, 13),
        ("(", TokenKind::SymbolKind, 15),
        ("id", TokenKind::IdentifierKind, 16),
        ("int", TokenKind::KeywordKind, 19),
        (",", TokenKind::SymbolKind, 22),
        ("name", TokenKind::IdentifierKind, 24),
        ("text", TokenKind::KeywordKind, 29),
        (")", TokenKind::SymbolKind, 33),
    ];
    assert_eq!(tokens.len(), expected.len());
    for (t, (value, kind, col)) in tokens.iter().zip(expected) {
        assert_eq!(t.value, value);
        assert_eq!(t.kind, kind);
        assert_eq!(t.loc, Location { line: 0, col });
    }
}

#[test]
fn lex_insert() {
    let tokens = lex("insert into users values (105, 233)").unwrap();
    let expected = [
        ("insert", TokenKind::KeywordKind, 0),
        ("into", TokenKind::KeywordKind, 7),
        ("users", TokenKind::IdentifierKind, 12),
        ("values", TokenKind::KeywordKind, 18),
        ("(", TokenKind::SymbolKind, 25),
        ("105", TokenKind::NumericKind, 26),
        (",", TokenKind::SymbolKind, 29),
        ("233", TokenKind::NumericKind, 31),
        (")", TokenKind::SymbolKind, 34),
    ];
    assert_eq!(tokens.len(), expected.len());
    for (t, (value, kind, col)) in tokens.iter().zip(expected) {
        assert_eq!(t.value, value);
        assert_eq!(t.kind, kind);
        assert_eq!(t.loc, Location { line: 0, col });
    }
}

#[test]
fn lex_select_from() {
    assert_eq!(
        values("SELECT id FROM users;"),
        vec![
            ("select".to_string(), TokenKind::KeywordKind),
            ("id".to_string(), TokenKind::IdentifierKind),
            ("from".to_string(), TokenKind::KeywordKind),
            ("users".to_string(), TokenKind::IdentifierKind),
            (";".to_string(), TokenKind::SymbolKind),
        ]
    );
}

#[test]
fn lex_tracks_lines() {
    let tokens = lex("select a\n  from t").unwrap();
    assert_eq!(tokens[2].value, "from");
    assert_eq!(tokens[2].loc, Location { line: 1, col: 2 });
    assert_eq!(tokens[3].loc, Location { line: 1, col: 7 });
}

#[test]
fn lex_keyword_prefix_splits_word() {
    assert_eq!(
        values("internal"),
        vec![("int".to_string(), TokenKind::KeywordKind), ("ernal".to_string(), TokenKind::IdentifierKind)]
    );
}

#[test]
fn lex_error_reports_location_and_previous_token() {
    let err = lex("select a @").unwrap_err();
    assert_eq!(err.loc, Location { line: 0, col: 9 });
    assert_eq!(err.after, Some("a".to_string()));

    let err = lex("  #").unwrap_err();
    assert_eq!(err.loc, Location { line: 0, col: 2 });
    assert_eq!(err.after, None);

    let err = lex("select 'open").unwrap_err();
    assert_eq!(err.loc, Location { line: 0, col: 7 });
    assert_eq!(err.after, Some("select".to_string()));
}

#[test]
fn token_equality_ignores_location() {
    let a = Token { value: "x".to_string(), kind: TokenKind::IdentifierKind, loc: Location { line: 0, col: 0 } };
    let b = Token { value: "x".to_string(), kind: TokenKind::IdentifierKind, loc: Location { line: 3, col: 9 } };
    let c = Token { value: "x".to_string(), kind: TokenKind::StringKind, loc: Location { line: 0, col: 0 } };
    assert_eq!(a, b);
    assert_ne!(a, c);
    let empty = Token::new();
    assert_eq!(empty.value, "");
    assert_eq!(empty.kind, TokenKind::BooleanKind);
    assert_eq!(empty.loc, Location::new());
}
