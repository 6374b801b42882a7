use vstd::prelude::*;

use crate::ast::{
    Ast, ColumnDefinition, ColumnDefinitionV, CreateTableStatement, CreateTableV, Expression,
    ExpressionKind, ExpressionV, InsertStatement, InsertV, SelectStatement, SelectV, Statement,
    StatementV, columns_view, expressions_view, statements_view,
};
use crate::lexer::{
    Keyword, LexError, Location, Symbol, Token, TokenKind, TokenV, empty_token, lex,
    reports_lex_failure, tokenize, tokens_view, COMMA_SYMBOL, CREATE_KEYWORD, FROM_KEYWORD,
    INSERT_KEYWORD, INTO_KEYWORD, LEFTPAREN_SYMBOL, RIGHTPAREN_SYMBOL, SELECT_KEYWORD,
    SEMICOLON_SYMBOL, TABLE_KEYWORD, VALUES_KEYWORD,
};

verus! {

/// Token `t` has the value and kind of `u`; locations do not count.
pub open spec fn same_token(t: TokenV, u: TokenV) -> bool {
    t.value == u.value && t.kind == u.kind
}

/// The token at index `i` is one like `t`.
pub open spec fn token_at(ts: Seq<TokenV>, i: int, t: TokenV) -> bool {
    0 <= i < ts.len() && same_token(ts[i], t)
}

/// The token at index `i` has kind `kind`.
pub open spec fn kind_at(ts: Seq<TokenV>, i: int, kind: TokenKind) -> bool {
    0 <= i < ts.len() && ts[i].kind == kind
}

pub open spec fn keyword_token(k: Seq<char>) -> TokenV {
    TokenV { value: k, kind: TokenKind::KeywordKind, loc: Location { line: 0, col: 0 } }
}

pub open spec fn symbol_token(s: Seq<char>) -> TokenV {
    TokenV { value: s, kind: TokenKind::SymbolKind, loc: Location { line: 0, col: 0 } }
}

/// A token that can stand as a literal expression.
pub open spec fn is_literal_kind(k: TokenKind) -> bool {
    k == TokenKind::IdentifierKind || k == TokenKind::NumericKind || k == TokenKind::StringKind
}

pub open spec fn expression_at(ts: Seq<TokenV>, i: int) -> Option<(ExpressionV, int)> {
    if 0 <= i < ts.len() && is_literal_kind(ts[i].kind) {
        Some((ExpressionV { literal: ts[i], kind: ExpressionKind::LiteralKind }, i + 1))
    } else {
        None
    }
}

pub open spec fn is_delimiter(t: TokenV, ds: Seq<TokenV>) -> bool {
    exists|j: int| 0 <= j < ds.len() && same_token(ds[j], t)
}

/// A comma-separated list of expressions from index `i`, up to (not
/// including) the first token like one of `ds`; `first` says that no
/// expression was read yet, so no comma is due.
pub open spec fn expressions_from(ts: Seq<TokenV>, i: int, ds: Seq<TokenV>, first: bool) -> Option<
    (Seq<ExpressionV>, int),
>
    decreases ts.len() - i,
{
    if i < 0 || i >= ts.len() {
        None
    } else if is_delimiter(ts[i], ds) {
        Some((Seq::empty(), i))
    } else if !first && !same_token(ts[i], symbol_token(COMMA_SYMBOL@)) {
        None
    } else {
        let j = if first {
            i
        } else {
            i + 1
        };
        if 0 <= j < ts.len() && is_literal_kind(ts[j].kind) {
            let e = ExpressionV { literal: ts[j], kind: ExpressionKind::LiteralKind };
            match expressions_from(ts, j + 1, ds, false) {
                Some((es, k)) => Some((seq![e] + es, k)),
                None => None,
            }
        } else {
            None
        }
    }
}

pub fn token_from_keyword(k: Keyword) -> (r: Token)
    ensures
        r@ == keyword_token(k@),
{
    Token { kind: TokenKind::KeywordKind, value: String::from_str(k), loc: Location::new() }
}

pub fn token_from_symbol(s: Symbol) -> (r: Token)
    ensures
        r@ == symbol_token(s@),
{
    Token { kind: TokenKind::SymbolKind, value: String::from_str(s), loc: Location::new() }
}

/// Whether the token at `cursor` is one like `t`.
pub fn expect_token(tokens: &Vec<Token>, cursor: usize, t: &Token) -> (r: bool)
    ensures
        r == token_at(tokens_view(tokens@), cursor as int, t@),
        r ==> cursor < tokens.len(),
{
    if cursor >= tokens.len() {
        return false;
    }
    *t == tokens[cursor]
}

/// The token at `cursor`, where it has kind `kind`.
pub fn parse_token(tokens: &Vec<Token>, initial_cursor: usize, kind: TokenKind) -> (r: (
    Option<&Token>,
    usize,
    bool,
))
    ensures
        if kind_at(tokens_view(tokens@), initial_cursor as int, kind) {
            r.2 && r.1 == initial_cursor + 1 && r.0 == Some(&tokens@[initial_cursor as int])
        } else {
            !r.2 && r.1 == initial_cursor && r.0 is None
        },
{
    if initial_cursor >= tokens.len() {
        return (None, initial_cursor, false);
    }
    let current = &tokens[initial_cursor];
    if current.kind == kind {
        return (Some(current), initial_cursor + 1, true);
    }
    (None, initial_cursor, false)
}

/// A literal expression: an identifier, a number or a string.
pub fn parse_expression(tokens: &Vec<Token>, initial_cursor: usize) -> (r: (
    Option<Expression>,
    usize,
    bool,
))
    ensures
        match expression_at(tokens_view(tokens@), initial_cursor as int) {
            Some((e, j)) => r.2 && r.1 == j && (r.0 matches Some(x) && x@ == e),
            None => !r.2 && r.1 == initial_cursor && r.0 is None,
        },
{
    if let (Some(t), new_cursor, _) = parse_token(tokens, initial_cursor, TokenKind::IdentifierKind) {
        return (
            Some(Expression { literal: t.clone(), kind: ExpressionKind::LiteralKind }),
            new_cursor,
            true,
        );
    }
    if let (Some(t), new_cursor, _) = parse_token(tokens, initial_cursor, TokenKind::NumericKind) {
        return (
            Some(Expression { literal: t.clone(), kind: ExpressionKind::LiteralKind }),
            new_cursor,
            true,
        );
    }
    if let (Some(t), new_cursor, _) = parse_token(tokens, initial_cursor, TokenKind::StringKind) {
        return (
            Some(Expression { literal: t.clone(), kind: ExpressionKind::LiteralKind }),
            new_cursor,
            true,
        );
    }
    (None, initial_cursor, false)
}

/// Whether `t` is like one of `delimiters`.
fn is_delimiter_token(delimiters: &Vec<Token>, t: &Token) -> (r: bool)
    ensures
        r == is_delimiter(t@, tokens_view(delimiters@)),
{
    let ghost ds = tokens_view(delimiters@);
    let mut j: usize = 0;
    while j < delimiters.len()
        invariant
            j <= delimiters.len(),
            ds == tokens_view(delimiters@),
            forall|i: int| 0 <= i < j ==> !same_token(ds[i], t@),
        decreases delimiters.len() - j,
    {
        if delimiters[j] == *t {
            assert(same_token(ds[j as int], t@));
            return true;
        }
        j = j + 1;
    }
    false
}

pub open spec fn prepend_expressions(pre: Seq<ExpressionV>, r: Option<(Seq<ExpressionV>, int)>) -> Option<
    (Seq<ExpressionV>, int),
> {
    match r {
        Some((es, k)) => Some((pre + es, k)),
        None => None,
    }
}

/// A comma-separated list of literal expressions, ended by a token like one
/// of `delimiters`, which is not consumed.
pub fn parse_expressions(tokens: &Vec<Token>, initial_cursor: usize, delimiters: &Vec<Token>) -> (r: (
    Option<Vec<Expression>>,
    usize,
    bool,
))
    ensures
        match expressions_from(
            tokens_view(tokens@),
            initial_cursor as int,
            tokens_view(delimiters@),
            true,
        ) {
            Some((es, j)) => r.2 && r.1 == j && (r.0 matches Some(x) && expressions_view(x@) == es),
            None => !r.2 && r.1 == initial_cursor && r.0 is None,
        },
{
    let ghost ts = tokens_view(tokens@);
    let ghost ds = tokens_view(delimiters@);
    let comma = token_from_symbol(COMMA_SYMBOL);
    let mut cursor = initial_cursor;
    let mut expressions: Vec<Expression> = Vec::new();
    loop
        invariant
            ts == tokens_view(tokens@),
            ds == tokens_view(delimiters@),
            comma@ == symbol_token(COMMA_SYMBOL@),
            initial_cursor <= cursor,
            expressions_from(ts, initial_cursor as int, ds, true) == prepend_expressions(
                expressions_view(expressions@),
                expressions_from(ts, cursor as int, ds, expressions.len() == 0),
            ),
        decreases tokens.len() - cursor,
    {
        if cursor >= tokens.len() {
            return (None, initial_cursor, false);
        }
        if is_delimiter_token(delimiters, &tokens[cursor]) {
            proof {
                assert(expressions_view(expressions@) + Seq::<ExpressionV>::empty()
                    =~= expressions_view(expressions@));
            }
            return (Some(expressions), cursor, true);
        }
        let ghost first = expressions.len() == 0;
        let ghost c0 = cursor;
        if expressions.len() > 0 {
            if !expect_token(tokens, cursor, &comma) {
                return (None, initial_cursor, false);
            }
            cursor = cursor + 1;
        }
        let (expression, new_cursor, ok) = parse_expression(tokens, cursor);
        if !ok {
            return (None, initial_cursor, false);
        }
        match expression {
            Some(e) => {
                proof {
                    let rest = expressions_from(ts, new_cursor as int, ds, false);
                    assert(expressions_from(ts, c0 as int, ds, first) == prepend_expressions(
                        seq![e@],
                        rest,
                    ));
                    assert(expressions_view(expressions@.push(e)) =~= expressions_view(
                        expressions@,
                    ).push(e@));
                    if let Some((es, k)) = rest {
                        assert(expressions_view(expressions@) + (seq![e@] + es)
                            =~= expressions_view(expressions@).push(e@) + es);
                    }
                }
                expressions.push(e);
            },
            None => {
                return (None, initial_cursor, false);
            },
        }
        cursor = new_cursor;
    }
}

/// A comma-separated list of column definitions (a name, then a type
/// keyword) from index `i`, up to (not including) the first token like `d`.
pub open spec fn columns_from(ts: Seq<TokenV>, i: int, d: TokenV, first: bool) -> Option<
    (Seq<ColumnDefinitionV>, int),
>
    decreases ts.len() - i,
{
    if i < 0 || i >= ts.len() {
        None
    } else if same_token(d, ts[i]) {
        Some((Seq::empty(), i))
    } else if !first && !same_token(ts[i], symbol_token(COMMA_SYMBOL@)) {
        None
    } else {
        let j = if first {
            i
        } else {
            i + 1
        };
        if kind_at(ts, j, TokenKind::IdentifierKind) && kind_at(ts, j + 1, TokenKind::KeywordKind) {
            let c = ColumnDefinitionV { name: ts[j], datatype: ts[j + 1] };
            match columns_from(ts, j + 2, d, false) {
                Some((cs, k)) => Some((seq![c] + cs, k)),
                None => None,
            }
        } else {
            None
        }
    }
}

pub open spec fn prepend_columns(pre: Seq<ColumnDefinitionV>, r: Option<(Seq<ColumnDefinitionV>, int)>) -> Option<
    (Seq<ColumnDefinitionV>, int),
> {
    match r {
        Some((cs, k)) => Some((pre + cs, k)),
        None => None,
    }
}

/// A comma-separated list of column definitions, ended by a token like
/// `delimiter`, which is not consumed.
pub fn parse_column_definitions(tokens: &Vec<Token>, initial_cursor: usize, delimiter: &Token) -> (r: (
    Option<Vec<ColumnDefinition>>,
    usize,
    bool,
))
    ensures
        match columns_from(tokens_view(tokens@), initial_cursor as int, delimiter@, true) {
            Some((cs, j)) => r.2 && r.1 == j && (r.0 matches Some(x) && columns_view(x@) == cs),
            None => !r.2 && r.1 == initial_cursor && r.0 is None,
        },
{
    let ghost ts = tokens_view(tokens@);
    let comma = token_from_symbol(COMMA_SYMBOL);
    let mut cursor = initial_cursor;
    let mut cds: Vec<ColumnDefinition> = Vec::new();
    loop
        invariant
            ts == tokens_view(tokens@),
            comma@ == symbol_token(COMMA_SYMBOL@),
            initial_cursor <= cursor,
            columns_from(ts, initial_cursor as int, delimiter@, true) == prepend_columns(
                columns_view(cds@),
                columns_from(ts, cursor as int, delimiter@, cds.len() == 0),
            ),
        decreases tokens.len() - cursor,
    {
        if cursor >= tokens.len() {
            return (None, initial_cursor, false);
        }
        if *delimiter == tokens[cursor] {
            proof {
                assert(columns_view(cds@) + Seq::<ColumnDefinitionV>::empty() =~= columns_view(cds@));
            }
            return (Some(cds), cursor, true);
        }
        let ghost first = cds.len() == 0;
        let ghost c0 = cursor;
        if cds.len() > 0 {
            if !expect_token(tokens, cursor, &comma) {
                return (None, initial_cursor, false);
            }
            cursor = cursor + 1;
        }
        let (id, new_cursor, _) = parse_token(tokens, cursor, TokenKind::IdentifierKind);
        cursor = new_cursor;
        let (ty, new_cursor, _) = parse_token(tokens, cursor, TokenKind::KeywordKind);
        cursor = new_cursor;
        match (id, ty) {
            (Some(id), Some(ty)) => {
                let cd = ColumnDefinition { name: id.clone(), datatype: ty.clone() };
                proof {
                    let rest = columns_from(ts, cursor as int, delimiter@, false);
                    assert(columns_from(ts, c0 as int, delimiter@, first) == prepend_columns(
                        seq![cd@],
                        rest,
                    ));
                    assert(columns_view(cds@.push(cd)) =~= columns_view(cds@).push(cd@));
                    if let Some((cs, k)) = rest {
                        assert(columns_view(cds@) + (seq![cd@] + cs) =~= columns_view(cds@).push(cd@)
                            + cs);
                    }
                }
                cds.push(cd);
            },
            _ => {
                return (None, initial_cursor, false);
            },
        }
    }
}

/// `select`, a list of expressions up to `from` or `d`, then, after
/// `from`, one identifier naming the table.
pub open spec fn select_at(ts: Seq<TokenV>, i: int, d: TokenV) -> Option<(SelectV, int)> {
    let from = keyword_token(FROM_KEYWORD@);
    if !token_at(ts, i, keyword_token(SELECT_KEYWORD@)) {
        None
    } else {
        match expressions_from(ts, i + 1, seq![from, d], true) {
            None => None,
            Some((items, j)) => if token_at(ts, j, from) {
                if kind_at(ts, j + 1, TokenKind::IdentifierKind) {
                    Some((SelectV { items, from: ts[j + 1] }, j + 2))
                } else {
                    None
                }
            } else {
                Some((SelectV { items, from: empty_token() }, j))
            },
        }
    }
}

/// `insert into` a table name `values (` a list of expressions `)`.
pub open spec fn insert_at(ts: Seq<TokenV>, i: int) -> Option<(InsertV, int)> {
    let rparen = symbol_token(RIGHTPAREN_SYMBOL@);
    if token_at(ts, i, keyword_token(INSERT_KEYWORD@)) && token_at(
        ts,
        i + 1,
        keyword_token(INTO_KEYWORD@),
    ) && kind_at(ts, i + 2, TokenKind::IdentifierKind) && token_at(
        ts,
        i + 3,
        keyword_token(VALUES_KEYWORD@),
    ) && token_at(ts, i + 4, symbol_token(LEFTPAREN_SYMBOL@)) {
        match expressions_from(ts, i + 5, seq![rparen], true) {
            Some((values, j)) => if token_at(ts, j, rparen) {
                Some((InsertV { table: ts[i + 2], values }, j + 1))
            } else {
                None
            },
            None => None,
        }
    } else {
        None
    }
}

/// `create table` a table name `(` a list of column definitions `)`.
pub open spec fn create_table_at(ts: Seq<TokenV>, i: int) -> Option<(CreateTableV, int)> {
    let rparen = symbol_token(RIGHTPAREN_SYMBOL@);
    if token_at(ts, i, keyword_token(CREATE_KEYWORD@)) && token_at(
        ts,
        i + 1,
        keyword_token(TABLE_KEYWORD@),
    ) && kind_at(ts, i + 2, TokenKind::IdentifierKind) && token_at(
        ts,
        i + 3,
        symbol_token(LEFTPAREN_SYMBOL@),
    ) {
        match columns_from(ts, i + 4, rparen, true) {
            Some((cols, j)) => if token_at(ts, j, rparen) {
                Some((CreateTableV { name: ts[i + 2], cols }, j + 1))
            } else {
                None
            },
            None => None,
        }
    } else {
        None
    }
}

/// The first of the select, insert and create-table forms, in that order,
/// that parses at `i`.
pub open spec fn statement_at(ts: Seq<TokenV>, i: int) -> Option<(StatementV, int)> {
    match select_at(ts, i, symbol_token(SEMICOLON_SYMBOL@)) {
        Some((s, j)) => Some((StatementV::Select(s), j)),
        None => match insert_at(ts, i) {
            Some((s, j)) => Some((StatementV::Insert(s), j)),
            None => match create_table_at(ts, i) {
                Some((s, j)) => Some((StatementV::CreateTable(s), j)),
                None => None,
            },
        },
    }
}

pub fn parse_select_statement(tokens: &Vec<Token>, initial_cursor: usize, delimiter: &Token) -> (r: (
    Option<SelectStatement>,
    usize,
    bool,
))
    ensures
        match select_at(tokens_view(tokens@), initial_cursor as int, delimiter@) {
            Some((st, j)) => r.2 && r.1 == j && (r.0 matches Some(x) && x@ == st),
            None => !r.2 && r.1 == initial_cursor && r.0 is None,
        },
{
    let ghost ts = tokens_view(tokens@);
    let mut cursor = initial_cursor;
    if !expect_token(tokens, cursor, &token_from_keyword(SELECT_KEYWORD)) {
        return (None, initial_cursor, false);
    }
    cursor = cursor + 1;
    let from = token_from_keyword(FROM_KEYWORD);
    let mut delimiters: Vec<Token> = Vec::new();
    delimiters.push(from.clone());
    delimiters.push(delimiter.clone());
    proof {
        assert(tokens_view(delimiters@) =~= seq![keyword_token(FROM_KEYWORD@), delimiter@]);
    }
    let (expressions, new_cursor, _) = parse_expressions(tokens, cursor, &delimiters);
    let item = match expressions {
        Some(e) => e,
        None => {
            return (None, initial_cursor, false);
        },
    };
    cursor = new_cursor;
    if expect_token(tokens, cursor, &from) {
        cursor = cursor + 1;
        let (table, new_cursor, _) = parse_token(tokens, cursor, TokenKind::IdentifierKind);
        match table {
            Some(t) => {
                return (Some(SelectStatement { item, from: t.clone() }), new_cursor, true);
            },
            None => {
                return (None, initial_cursor, false);
            },
        }
    }
    (Some(SelectStatement { item, from: Token::new() }), cursor, true)
}

pub fn parse_insert_statement(tokens: &Vec<Token>, initial_cursor: usize) -> (r: (
    Option<InsertStatement>,
    usize,
    bool,
))
    ensures
        match insert_at(tokens_view(tokens@), initial_cursor as int) {
            Some((st, j)) => r.2 && r.1 == j && (r.0 matches Some(x) && x@ == st),
            None => !r.2 && r.1 == initial_cursor && r.0 is None,
        },
{
    let mut cursor = initial_cursor;
    if !expect_token(tokens, cursor, &token_from_keyword(INSERT_KEYWORD)) {
        return (None, initial_cursor, false);
    }
    cursor = cursor + 1;
    if !expect_token(tokens, cursor, &token_from_keyword(INTO_KEYWORD)) {
        return (None, initial_cursor, false);
    }
    cursor = cursor + 1;
    let (table, new_cursor, _) = parse_token(tokens, cursor, TokenKind::IdentifierKind);
    let table = match table {
        Some(t) => t,
        None => {
            return (None, initial_cursor, false);
        },
    };
    cursor = new_cursor;
    if !expect_token(tokens, cursor, &token_from_keyword(VALUES_KEYWORD)) {
        return (None, initial_cursor, false);
    }
    cursor = cursor + 1;
    if !expect_token(tokens, cursor, &token_from_symbol(LEFTPAREN_SYMBOL)) {
        return (None, initial_cursor, false);
    }
    cursor = cursor + 1;
    let rparen = token_from_symbol(RIGHTPAREN_SYMBOL);
    let mut delimiters: Vec<Token> = Vec::new();
    delimiters.push(rparen.clone());
    proof {
        assert(tokens_view(delimiters@) =~= seq![symbol_token(RIGHTPAREN_SYMBOL@)]);
    }
    let (values, new_cursor, _) = parse_expressions(tokens, cursor, &delimiters);
    let values = match values {
        Some(v) => v,
        None => {
            return (None, initial_cursor, false);
        },
    };
    cursor = new_cursor;
    if !expect_token(tokens, cursor, &rparen) {
        return (None, initial_cursor, false);
    }
    cursor = cursor + 1;
    (Some(InsertStatement { table: table.clone(), values }), cursor, true)
}

pub fn parse_create_table_statement(tokens: &Vec<Token>, initial_cursor: usize) -> (r: (
    Option<CreateTableStatement>,
    usize,
    bool,
))
    ensures
        match create_table_at(tokens_view(tokens@), initial_cursor as int) {
            Some((st, j)) => r.2 && r.1 == j && (r.0 matches Some(x) && x@ == st),
            None => !r.2 && r.1 == initial_cursor && r.0 is None,
        },
{
    let mut cursor = initial_cursor;
    if !expect_token(tokens, cursor, &token_from_keyword(CREATE_KEYWORD)) {
        return (None, initial_cursor, false);
    }
    cursor = cursor + 1;
    if !expect_token(tokens, cursor, &token_from_keyword(TABLE_KEYWORD)) {
        return (None, initial_cursor, false);
    }
    cursor = cursor + 1;
    let (name, new_cursor, _) = parse_token(tokens, cursor, TokenKind::IdentifierKind);
    let name = match name {
        Some(t) => t,
        None => {
            return (None, initial_cursor, false);
        },
    };
    cursor = new_cursor;
    if !expect_token(tokens, cursor, &token_from_symbol(LEFTPAREN_SYMBOL)) {
        return (None, initial_cursor, false);
    }
    cursor = cursor + 1;
    let rparen = token_from_symbol(RIGHTPAREN_SYMBOL);
    let (cols, new_cursor, _) = parse_column_definitions(tokens, cursor, &rparen);
    let cols = match cols {
        Some(c) => c,
        None => {
            return (None, initial_cursor, false);
        },
    };
    cursor = new_cursor;
    if !expect_token(tokens, cursor, &rparen) {
        return (None, initial_cursor, false);
    }
    cursor = cursor + 1;
    (Some(CreateTableStatement { name: name.clone(), cols }), cursor, true)
}

/// One statement, tried as a select, an insert and a create-table statement,
/// in that order, each from the same index.
pub fn parse_statement(tokens: &Vec<Token>, initial_cursor: usize) -> (r: (
    Option<Statement>,
    usize,
    bool,
))
    ensures
        match statement_at(tokens_view(tokens@), initial_cursor as int) {
            Some((st, j)) => r.2 && r.1 == j && (r.0 matches Some(x) && x@ == st),
            None => !r.2 && r.1 == initial_cursor && r.0 is None,
        },
{
    let semicolon = token_from_symbol(SEMICOLON_SYMBOL);
    let (select, new_cursor, _) = parse_select_statement(tokens, initial_cursor, &semicolon);
    if let Some(s) = select {
        return (Some(Statement::Select(s)), new_cursor, true);
    }
    let (insert, new_cursor, _) = parse_insert_statement(tokens, initial_cursor);
    if let Some(s) = insert {
        return (Some(Statement::Insert(s)), new_cursor, true);
    }
    let (create_table, new_cursor, _) = parse_create_table_statement(tokens, initial_cursor);
    if let Some(s) = create_table {
        return (Some(Statement::CreateTable(s)), new_cursor, true);
    }
    (None, initial_cursor, false)
}

proof fn lemma_expressions_bounds(ts: Seq<TokenV>, i: int, ds: Seq<TokenV>, first: bool)
    ensures
        expressions_from(ts, i, ds, first) matches Some((es, k)) ==> i <= k < ts.len(),
    decreases ts.len() - i,
{
    if 0 <= i < ts.len() && !is_delimiter(ts[i], ds) {
        let j = if first {
            i
        } else {
            i + 1
        };
        if 0 <= j < ts.len() {
            lemma_expressions_bounds(ts, j + 1, ds, false);
        }
    }
}

proof fn lemma_columns_bounds(ts: Seq<TokenV>, i: int, d: TokenV, first: bool)
    ensures
        columns_from(ts, i, d, first) matches Some((cs, k)) ==> i <= k < ts.len(),
    decreases ts.len() - i,
{
    if 0 <= i < ts.len() && !same_token(d, ts[i]) {
        let j = if first {
            i
        } else {
            i + 1
        };
        if 0 <= j && j + 1 < ts.len() {
            lemma_columns_bounds(ts, j + 2, d, false);
        }
    }
}

/// A statement that parses takes at least one token, and no more than there are.
pub proof fn lemma_statement_progress(ts: Seq<TokenV>, i: int)
    ensures
        statement_at(ts, i) matches Some((st, j)) ==> i < j <= ts.len(),
{
    lemma_expressions_bounds(
        ts,
        i + 1,
        seq![keyword_token(FROM_KEYWORD@), symbol_token(SEMICOLON_SYMBOL@)],
        true,
    );
    lemma_expressions_bounds(ts, i + 5, seq![symbol_token(RIGHTPAREN_SYMBOL@)], true);
    lemma_columns_bounds(ts, i + 4, symbol_token(RIGHTPAREN_SYMBOL@), true);
}

/// The index of the first token from `j` on that is not a semicolon.
pub open spec fn semicolons_end(ts: Seq<TokenV>, j: int) -> int
    decreases ts.len() - j,
{
    if token_at(ts, j, symbol_token(SEMICOLON_SYMBOL@)) {
        semicolons_end(ts, j + 1)
    } else {
        j
    }
}

pub proof fn lemma_semicolons_end_bounds(ts: Seq<TokenV>, j: int)
    requires
        j <= ts.len(),
    ensures
        j <= semicolons_end(ts, j) <= ts.len(),
    decreases ts.len() - j,
{
    if token_at(ts, j, symbol_token(SEMICOLON_SYMBOL@)) {
        lemma_semicolons_end_bounds(ts, j + 1);
    }
}

/// Why a token sequence is not a list of statements.
#[derive(Clone, Copy, Debug, PartialEq, Eq, Structural)]
pub enum ParseFailure {
    ExpectedStatement,
    MissingSemicolon,
}

/// The statements from index `i` to the end, each followed by one or more
/// semicolons; or the first failure and the index where it happened.
pub open spec fn statements_from(ts: Seq<TokenV>, i: int) -> Result<Seq<StatementV>, (ParseFailure, int)>
    decreases ts.len() - i,
{
    if i < 0 || i >= ts.len() {
        Ok(Seq::empty())
    } else {
        match statement_at(ts, i) {
            None => Err((ParseFailure::ExpectedStatement, i)),
            Some((st, j)) => {
                let k = semicolons_end(ts, j);
                if k == j {
                    Err((ParseFailure::MissingSemicolon, j))
                } else {
                    proof {
                        lemma_statement_progress(ts, i);
                        lemma_semicolons_end_bounds(ts, j);
                    }
                    match statements_from(ts, k) {
                        Ok(ss) => Ok(seq![st] + ss),
                        Err(e) => Err(e),
                    }
                }
            },
        }
    }
}

pub open spec fn prepend_statements(
    pre: Seq<StatementV>,
    r: Result<Seq<StatementV>, (ParseFailure, int)>,
) -> Result<Seq<StatementV>, (ParseFailure, int)> {
    match r {
        Ok(ss) => Ok(pre + ss),
        Err(e) => Err(e),
    }
}

/// The token a diagnostic at index `i` shows: the one there, or the last
/// one where `i` is past the end.
pub open spec fn diagnostic_at(ts: Seq<TokenV>, i: int) -> TokenV {
    if i < ts.len() {
        ts[i]
    } else {
        ts.last()
    }
}

fn diagnostic_token(tokens: &Vec<Token>, cursor: usize) -> (r: Token)
    requires
        tokens.len() > 0,
    ensures
        r@ == diagnostic_at(tokens_view(tokens@), cursor as int),
{
    if cursor < tokens.len() {
        tokens[cursor].clone()
    } else {
        tokens[tokens.len() - 1].clone()
    }
}

/// Why a source text did not parse.
#[derive(Debug)]
pub enum ParseError {
    /// The text did not tokenize.
    Lex(LexError),
    /// No statement form parses at token `index`.
    ExpectedStatement { index: usize, got: Token },
    /// A statement that ends before token `index` is not followed by a semicolon.
    MissingSemicolon { index: usize, got: Token },
}

/// `r` is the outcome of parsing `s`.
pub open spec fn parse_outcome(s: Seq<char>, r: Result<Ast, ParseError>) -> bool {
    let (ts, lex_failure) = tokenize(s);
    match r {
        Ok(ast) => lex_failure is None && statements_from(ts, 0) == Ok::<
            Seq<StatementV>,
            (ParseFailure, int),
        >(ast@),
        Err(ParseError::Lex(e)) => reports_lex_failure(s, e),
        Err(ParseError::ExpectedStatement { index, got }) => lex_failure is None && statements_from(
            ts,
            0,
        ) == Err::<Seq<StatementV>, (ParseFailure, int)>(
            (ParseFailure::ExpectedStatement, index as int),
        ) && got@ == diagnostic_at(ts, index as int),
        Err(ParseError::MissingSemicolon { index, got }) => lex_failure is None && statements_from(
            ts,
            0,
        ) == Err::<Seq<StatementV>, (ParseFailure, int)>(
            (ParseFailure::MissingSemicolon, index as int),
        ) && got@ == diagnostic_at(ts, index as int),
    }
}

/// Tokenizes `source`, then parses the tokens as statements, each followed
/// by at least one semicolon.
pub fn parse(source: &str) -> (r: Result<Ast, ParseError>)
    ensures
        parse_outcome(source@, r),
{
    let tokens = match lex(source) {
        Ok(tokens) => tokens,
        Err(e) => {
            return Err(ParseError::Lex(e));
        },
    };
    let ghost ts = tokens_view(tokens@);
    let semicolon = token_from_symbol(SEMICOLON_SYMBOL);
    let mut statements: Vec<Statement> = Vec::new();
    let mut cursor: usize = 0;
    while cursor < tokens.len()
        invariant
            ts == tokens_view(tokens@),
            tokenize(source@) == (ts, None::<Location>),
            semicolon@ == symbol_token(SEMICOLON_SYMBOL@),
            cursor <= tokens.len(),
            statements_from(ts, 0) == prepend_statements(
                statements_view(statements@),
                statements_from(ts, cursor as int),
            ),
        decreases tokens.len() - cursor,
    {
        let (statement, new_cursor, _) = parse_statement(&tokens, cursor);
        let st = match statement {
            Some(st) => st,
            None => {
                proof {
                    assert(statements_from(ts, cursor as int) == Err::<
                        Seq<StatementV>,
                        (ParseFailure, int),
                    >((ParseFailure::ExpectedStatement, cursor as int)));
                }
                return Err(
                    ParseError::ExpectedStatement {
                        index: cursor,
                        got: diagnostic_token(&tokens, cursor),
                    },
                );
            },
        };
        proof {
            lemma_statement_progress(ts, cursor as int);
            lemma_semicolons_end_bounds(ts, new_cursor as int);
        }
        let ghost c0 = cursor;
        let ghost j = new_cursor;
        cursor = new_cursor;
        let mut at_least_one_semicolon = false;
        while expect_token(&tokens, cursor, &semicolon)
            invariant
                ts == tokens_view(tokens@),
                semicolon@ == symbol_token(SEMICOLON_SYMBOL@),
                j <= cursor <= tokens.len(),
                semicolons_end(ts, j as int) == semicolons_end(ts, cursor as int),
                at_least_one_semicolon == (cursor > j),
            decreases tokens.len() - cursor,
        {
            cursor = cursor + 1;
            at_least_one_semicolon = true;
        }
        if !at_least_one_semicolon {
            proof {
                assert(semicolons_end(ts, j as int) == j);
                assert(statements_from(ts, c0 as int) == Err::<
                    Seq<StatementV>,
                    (ParseFailure, int),
                >((ParseFailure::MissingSemicolon, j as int)));
            }
            return Err(
                ParseError::MissingSemicolon { index: cursor, got: diagnostic_token(&tokens, cursor) },
            );
        }
        proof {
            let rest = statements_from(ts, cursor as int);
            assert(statements_view(statements@.push(st)) =~= statements_view(statements@).push(st@));
            if let Ok(ss) = rest {
                assert(statements_view(statements@) + (seq![st@] + ss) =~= statements_view(
                    statements@,
                ).push(st@) + ss);
            }
        }
        statements.push(st);
    }
    proof {
        assert(statements_view(statements@) + Seq::<StatementV>::empty() =~= statements_view(
            statements@,
        ));
    }
    Ok(Ast { statements })
}

/// A statement that is not followed by a semicolon makes the parse from its
/// start fail with a missing-semicolon diagnostic at the token after it,
/// whatever comes after; in particular when another statement follows.
pub proof fn lemma_missing_semicolon(ts: Seq<TokenV>, i: int)
    requires
        statement_at(ts, i) is Some,
        !token_at(ts, statement_at(ts, i).unwrap().1, symbol_token(SEMICOLON_SYMBOL@)),
    ensures
        statements_from(ts, i) == Err::<Seq<StatementV>, (ParseFailure, int)>(
            (ParseFailure::MissingSemicolon, statement_at(ts, i).unwrap().1),
        ),
{
    lemma_statement_progress(ts, i);
}

/// No statement starts with a semicolon, so two statements in a row, with
/// nothing between them, make the parse fail at the start of the second.
pub proof fn lemma_adjacent_statements(ts: Seq<TokenV>, i: int)
    requires
        statement_at(ts, i) is Some,
        statement_at(ts, statement_at(ts, i).unwrap().1) is Some,
    ensures
        statements_from(ts, i) == Err::<Seq<StatementV>, (ParseFailure, int)>(
            (ParseFailure::MissingSemicolon, statement_at(ts, i).unwrap().1),
        ),
{
    let j = statement_at(ts, i).unwrap().1;
    assert(!token_at(ts, j, symbol_token(SEMICOLON_SYMBOL@)));
    lemma_missing_semicolon(ts, i);
}

} // verus!
