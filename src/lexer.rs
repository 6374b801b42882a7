use vstd::prelude::*;

verus! {

pub type Keyword = &'static str;

pub type Symbol = &'static str;

pub const SELECT_KEYWORD: Keyword = "select";
pub const FROM_KEYWORD: Keyword = "from";
pub const AS_KEYWORD: Keyword = "as";
pub const TABLE_KEYWORD: Keyword = "table";
pub const CREATE_KEYWORD: Keyword = "create";
pub const INSERT_KEYWORD: Keyword = "insert";
pub const INTO_KEYWORD: Keyword = "into";
pub const VALUES_KEYWORD: Keyword = "values";
pub const INT_KEYWORD: Keyword = "int";
pub const TEXT_KEYWORD: Keyword = "text";
pub const BOOL_KEYWORD: Keyword = "boolean";
pub const WHERE_KEYWORD: Keyword = "where";
pub const AND_KEYWORD: Keyword = "and";
pub const OR_KEYWORD: Keyword = "or";
pub const TRUE_KEYWORD: Keyword = "true";
pub const FALSE_KEYWORD: Keyword = "false";

pub const SEMICOLON_SYMBOL: Symbol = ";";
pub const ASTERISK_SYMBOL: Symbol = "*";
pub const COMMA_SYMBOL: Symbol = ",";
pub const LEFTPAREN_SYMBOL: Symbol = "(";
pub const RIGHTPAREN_SYMBOL: Symbol = ")";
pub const EQ_SYMBOL: Symbol = "=";
pub const NEQ_SYMBOL: Symbol = "<>";
pub const CONCAT_SYMBOL: Symbol = "||";
pub const PLUS_SYMBOL: Symbol = "+";

/// The keywords, in the order the keyword scanner tries them.
pub open spec fn keywords() -> Seq<Seq<char>> {
    seq![
        SELECT_KEYWORD@,
        FROM_KEYWORD@,
        AS_KEYWORD@,
        TABLE_KEYWORD@,
        CREATE_KEYWORD@,
        INSERT_KEYWORD@,
        INTO_KEYWORD@,
        VALUES_KEYWORD@,
        INT_KEYWORD@,
        TEXT_KEYWORD@,
        BOOL_KEYWORD@,
        WHERE_KEYWORD@,
        AND_KEYWORD@,
        OR_KEYWORD@,
        TRUE_KEYWORD@,
        FALSE_KEYWORD@,
    ]
}

/// The symbols, in the order the symbol scanner tries them.
pub open spec fn symbols() -> Seq<Seq<char>> {
    seq![
        EQ_SYMBOL@,
        NEQ_SYMBOL@,
        CONCAT_SYMBOL@,
        PLUS_SYMBOL@,
        COMMA_SYMBOL@,
        LEFTPAREN_SYMBOL@,
        RIGHTPAREN_SYMBOL@,
        SEMICOLON_SYMBOL@,
        ASTERISK_SYMBOL@,
    ]
}

/// A zero-based position in the source text.
#[derive(Clone, Copy, Debug, PartialEq, Eq, Structural)]
pub struct Location {
    pub line: usize,
    pub col: usize,
}

impl Location {
    pub fn new() -> (r: Location)
        ensures
            r == (Location { line: 0, col: 0 }),
    {
        Location { line: 0, col: 0 }
    }
}

pub open spec fn is_upper(c: char) -> bool {
    'A' <= c && c <= 'Z'
}

/// `c` with an ASCII upper-case letter made lower-case.
pub open spec fn lower_char(c: char) -> char {
    if is_upper(c) {
        ((c as u32) + 32) as char
    } else {
        c
    }
}

fn ascii_lower(c: char) -> (r: char)
    ensures
        r == lower_char(c),
{
    if 'A' <= c && c <= 'Z' {
        ((c as u8) + 32) as char
    } else {
        c
    }
}

/// The lexical class of a token.
#[derive(Clone, Copy, Debug, PartialEq, Eq, Structural)]
pub enum TokenKind {
    KeywordKind,
    SymbolKind,
    IdentifierKind,
    StringKind,
    NumericKind,
    BooleanKind,
}

/// A lexeme with its class and the location where it starts.
#[derive(Debug)]
pub struct Token {
    pub value: String,
    pub kind: TokenKind,
    pub loc: Location,
}

/// The mathematical value of a token.
pub struct TokenV {
    pub value: Seq<char>,
    pub kind: TokenKind,
    pub loc: Location,
}

impl View for Token {
    type V = TokenV;

    open spec fn view(&self) -> TokenV {
        TokenV { value: self.value@, kind: self.kind, loc: self.loc }
    }
}

pub open spec fn opt_token_view(t: Option<Token>) -> Option<TokenV> {
    match t {
        Some(t) => Some(t@),
        None => None,
    }
}

impl Clone for Token {
    fn clone(&self) -> (r: Token)
        ensures
            r == *self,
    {
        Token { value: self.value.clone(), kind: self.kind, loc: self.loc }
    }
}

/// Tokens are compared by value and kind; the location is left out.
impl PartialEq for Token {
    fn eq(&self, rhs: &Token) -> (r: bool) {
        self.value == rhs.value && self.kind == rhs.kind
    }
}

impl vstd::std_specs::cmp::PartialEqSpecImpl for Token {
    open spec fn obeys_eq_spec() -> bool {
        true
    }

    open spec fn eq_spec(&self, rhs: &Token) -> bool {
        self.value@ == rhs.value@ && self.kind == rhs.kind
    }
}

impl Token {
    pub fn new() -> (r: Token)
        ensures
            r@ == empty_token(),
    {
        Token { value: String::new(), kind: TokenKind::BooleanKind, loc: Location::new() }
    }
}

/// The token that stands where no token was read.
pub open spec fn empty_token() -> TokenV {
    TokenV { value: Seq::empty(), kind: TokenKind::BooleanKind, loc: Location { line: 0, col: 0 } }
}

/// A scan position: the index of the next character and its location.
#[derive(Clone, Copy, Debug, PartialEq, Eq, Structural)]
pub struct Cursor {
    pub pointer: usize,
    pub loc: Location,
}

impl Cursor {
    pub fn new() -> (r: Cursor)
        ensures
            r == (Cursor { pointer: 0, loc: Location { line: 0, col: 0 } }),
    {
        Cursor { pointer: 0, loc: Location::new() }
    }
}

/// The cursor `n` characters further on the same line.
pub open spec fn advance(c: Cursor, n: int) -> Cursor {
    Cursor {
        pointer: (c.pointer + n) as usize,
        loc: Location { line: c.loc.line, col: (c.loc.col + n) as usize },
    }
}

/// A cursor that scanning could reach: there are at least as many
/// characters before it as its line and its column count.
pub open spec fn valid_cursor(c: Cursor) -> bool {
    c.loc.col <= c.pointer && c.loc.line <= c.pointer
}

/// What a scanner's result `r`, from cursor `ic`, stands for: the expected
/// token and cursor on a match, and on no match no token and `ic` unchanged.
pub open spec fn scanned(
    r: (Option<Token>, Cursor, bool),
    ic: Cursor,
    expected: Option<(Option<TokenV>, Cursor)>,
) -> bool {
    match expected {
        Some((t, c)) => r.2 && opt_token_view(r.0) == t && r.1 == c,
        None => !r.2 && r.0.is_none() && r.1 == ic,
    }
}

/// Relies on String::push: appends one character.
#[verifier::external_body]
fn push_char(s: &mut String, c: char)
    ensures
        final(s)@ == old(s)@.push(c),
{
    s.push(c)
}

/// The run after an opening delimiter `d`, from index `i`: the index just past
/// the closing delimiter and the text between, where a doubled delimiter
/// stands for one; `None` when the run is never closed.
pub open spec fn delimited_run(s: Seq<char>, i: int, d: char) -> Option<(int, Seq<char>)>
    decreases s.len() - i,
{
    if i < 0 || i >= s.len() {
        None
    } else if s[i] == d {
        if i + 1 >= s.len() || s[i + 1] != d {
            Some((i + 1, Seq::empty()))
        } else {
            match delimited_run(s, i + 2, d) {
                Some((e, v)) => Some((e, seq![d] + v)),
                None => None,
            }
        }
    } else {
        match delimited_run(s, i + 1, d) {
            Some((e, v)) => Some((e, seq![s[i]] + v)),
            None => None,
        }
    }
}

pub open spec fn delimited_scan(s: Seq<char>, c: Cursor, d: char) -> Option<(Option<TokenV>, Cursor)> {
    let p = c.pointer as int;
    if p < s.len() && s[p] == d {
        match delimited_run(s, p + 1, d) {
            Some((e, v)) => Some((
                Some(TokenV { value: v, kind: TokenKind::StringKind, loc: c.loc }),
                advance(c, e - p),
            )),
            None => None,
        }
    } else {
        None
    }
}

pub open spec fn prepend_run(pre: Seq<char>, r: Option<(int, Seq<char>)>) -> Option<(int, Seq<char>)> {
    match r {
        Some((e, v)) => Some((e, pre + v)),
        None => None,
    }
}

pub fn lex_character_delimited(source: &str, ic: Cursor, delimiter: char) -> (r: (
    Option<Token>,
    Cursor,
    bool,
))
    requires
        valid_cursor(ic),
    ensures
        scanned(r, ic, delimited_scan(source@, ic, delimiter)),
{
    let len = source.unicode_len();
    if ic.pointer >= len {
        return (None, ic, false);
    }
    if source.get_char(ic.pointer) != delimiter {
        return (None, ic, false);
    }
    let mut i: usize = ic.pointer + 1;
    let mut value = String::new();
    while i < len
        invariant
            len == source@.len(),
            ic.pointer < i <= len,
            source@[ic.pointer as int] == delimiter,
            valid_cursor(ic),
            delimited_run(source@, ic.pointer + 1, delimiter) == prepend_run(
                value@,
                delimited_run(source@, i as int, delimiter),
            ),
        decreases len - i,
    {
        let c = source.get_char(i);
        if c == delimiter {
            if i + 1 >= len || source.get_char(i + 1) != delimiter {
                proof {
                    assert(delimited_run(source@, i as int, delimiter) == Some(
                        ((i + 1) as int, Seq::<char>::empty()),
                    ));
                }
                i = i + 1;
                let n = i - ic.pointer;
                let cur = Cursor {
                    pointer: i,
                    loc: Location { line: ic.loc.line, col: ic.loc.col + n },
                };
                proof {
                    assert(value@ + Seq::<char>::empty() == value@);
                }
                return (Some(Token { value, kind: TokenKind::StringKind, loc: ic.loc }), cur, true);
            }
            proof {
                assert(value@.push(delimiter) == value@ + seq![delimiter]);
                assert forall|v: Seq<char>| value@ + (seq![delimiter] + v) == value@.push(delimiter) + v by {
                    assert(value@ + (seq![delimiter] + v) =~= value@.push(delimiter) + v);
                }
            }
            push_char(&mut value, delimiter);
            i = i + 2;
        } else {
            proof {
                assert forall|v: Seq<char>| value@ + (seq![c] + v) == value@.push(c) + v by {
                    assert(value@ + (seq![c] + v) =~= value@.push(c) + v);
                }
            }
            push_char(&mut value, c);
            i = i + 1;
        }
    }
    (None, ic, false)
}

pub fn lex_string(source: &str, ic: Cursor) -> (r: (Option<Token>, Cursor, bool))
    requires
        valid_cursor(ic),
    ensures
        scanned(r, ic, delimited_scan(source@, ic, '\'')),
{
    lex_character_delimited(source, ic, '\'')
}

pub open spec fn is_digit(c: char) -> bool {
    '0' <= c && c <= '9'
}

/// Where a number that has read up to index `i` ends, given whether a period
/// (or an exponent, which admits no later period) and an exponent marker were
/// already read; `None` when the text cannot be a number.
pub open spec fn numeric_tail(s: Seq<char>, i: int, period: bool, exp: bool) -> Option<int>
    decreases s.len() - i,
{
    if i < 0 || i >= s.len() {
        Some(i)
    } else if s[i] == '.' {
        if period {
            None
        } else {
            numeric_tail(s, i + 1, true, exp)
        }
    } else if s[i] == 'e' {
        if exp || i + 1 >= s.len() {
            None
        } else if s[i + 1] == '-' || s[i + 1] == '+' {
            numeric_tail(s, i + 2, true, true)
        } else {
            numeric_tail(s, i + 1, true, true)
        }
    } else if is_digit(s[i]) {
        numeric_tail(s, i + 1, period, exp)
    } else {
        Some(i)
    }
}

/// The end of the number that starts at `p`, if one does.
pub open spec fn numeric_end(s: Seq<char>, p: int) -> Option<int> {
    if 0 <= p < s.len() && (is_digit(s[p]) || s[p] == '.') {
        numeric_tail(s, p + 1, s[p] == '.', false)
    } else {
        None
    }
}

pub open spec fn numeric_scan(s: Seq<char>, c: Cursor) -> Option<(Option<TokenV>, Cursor)> {
    let p = c.pointer as int;
    match numeric_end(s, p) {
        Some(e) => Some((
            Some(TokenV { value: s.subrange(p, e), kind: TokenKind::NumericKind, loc: c.loc }),
            advance(c, e - p),
        )),
        None => None,
    }
}

fn find_numeric_end(source: &str, len: usize, start: usize) -> (r: Option<usize>)
    requires
        len == source@.len(),
    ensures
        r matches Some(e) ==> start < e <= len,
        match r {
            Some(e) => numeric_end(source@, start as int) == Some(e as int),
            None => numeric_end(source@, start as int) is None,
        },
{
    if start >= len {
        return None;
    }
    let c0 = source.get_char(start);
    if !('0' <= c0 && c0 <= '9') && c0 != '.' {
        return None;
    }
    let mut period_found = c0 == '.';
    let mut exp_marker_found = false;
    let mut i: usize = start + 1;
    while i < len
        invariant
            len == source@.len(),
            start < i <= len,
            numeric_end(source@, start as int) == numeric_tail(
                source@,
                i as int,
                period_found,
                exp_marker_found,
            ),
        decreases len - i,
    {
        let c = source.get_char(i);
        if c == '.' {
            if period_found {
                return None;
            }
            period_found = true;
            i = i + 1;
        } else if c == 'e' {
            if exp_marker_found || i + 1 >= len {
                return None;
            }
            period_found = true;
            exp_marker_found = true;
            let c_next = source.get_char(i + 1);
            if c_next == '-' || c_next == '+' {
                i = i + 1;
            }
            i = i + 1;
        } else if '0' <= c && c <= '9' {
            i = i + 1;
        } else {
            return Some(i);
        }
    }
    Some(i)
}

pub fn lex_numeric(source: &str, ic: Cursor) -> (r: (Option<Token>, Cursor, bool))
    requires
        valid_cursor(ic),
    ensures
        scanned(r, ic, numeric_scan(source@, ic)),
{
    let len = source.unicode_len();
    match find_numeric_end(source, len, ic.pointer) {
        None => (None, ic, false),
        Some(end) => {
            let n = end - ic.pointer;
            let value = String::from_str(source.substring_char(ic.pointer, end));
            let cur = Cursor { pointer: end, loc: Location { line: ic.loc.line, col: ic.loc.col + n } };
            (Some(Token { value, kind: TokenKind::NumericKind, loc: ic.loc }), cur, true)
        },
    }
}

pub open spec fn lower_seq(s: Seq<char>) -> Seq<char> {
    s.map_values(|c: char| lower_char(c))
}

/// The text from index `p` on, lower-cased.
pub open spec fn folded_from(s: Seq<char>, p: int) -> Seq<char> {
    if 0 <= p <= s.len() {
        lower_seq(s.subrange(p, s.len() as int))
    } else {
        Seq::empty()
    }
}

pub open spec fn is_prefix_of(o: Seq<char>, t: Seq<char>) -> bool {
    o.len() <= t.len() && t.subrange(0, o.len() as int) == o
}

pub open spec fn opts_view(options: Seq<&str>) -> Seq<Seq<char>> {
    options.map_values(|o: &str| o@)
}

/// The longest of `opts` that `t` starts with (the first such, of equal
/// lengths), or the empty text where there is none.
pub open spec fn longest_option(opts: Seq<Seq<char>>, t: Seq<char>) -> Seq<char>
    decreases opts.len(),
{
    if opts.len() == 0 {
        Seq::empty()
    } else {
        let best = longest_option(opts.drop_last(), t);
        let o = opts.last();
        if is_prefix_of(o, t) && o.len() > best.len() {
            o
        } else {
            best
        }
    }
}

/// `r` is the longest member of `opts` that `t` starts with, or empty where
/// no member is.
pub open spec fn is_longest_option(opts: Seq<Seq<char>>, t: Seq<char>, r: Seq<char>) -> bool {
    &&& forall|j: int| 0 <= j < opts.len() && is_prefix_of(opts[j], t) ==> opts[j].len() <= r.len()
    &&& r.len() > 0 ==> is_prefix_of(r, t) && exists|j: int| 0 <= j < opts.len() && opts[j] == r
}

/// The longest-match rule names one text: `longest_option` meets it, and so
/// does nothing else.
pub proof fn lemma_longest_option(opts: Seq<Seq<char>>, t: Seq<char>, r: Seq<char>)
    requires
        forall|j: int| 0 <= j < opts.len() ==> opts[j].len() > 0,
    ensures
        is_longest_option(opts, t, longest_option(opts, t)),
        is_longest_option(opts, t, r) ==> r == longest_option(opts, t),
    decreases opts.len(),
{
    let l = longest_option(opts, t);
    if opts.len() > 0 {
        let init = opts.drop_last();
        lemma_longest_option(init, t, r);
        let best = longest_option(init, t);
        assert forall|j: int| 0 <= j < opts.len() && is_prefix_of(opts[j], t) implies opts[j].len()
            <= l.len() by {
            if j < opts.len() - 1 {
                assert(init[j] == opts[j]);
            }
        }
        if l.len() > 0 {
            if l == opts.last() {
                assert(opts[opts.len() - 1] == l);
            } else {
                let j = choose|j: int| 0 <= j < init.len() && init[j] == best;
                assert(opts[j] == l);
            }
        }
    }
    if is_longest_option(opts, t, r) {
        if r.len() > 0 {
            let j = choose|j: int| 0 <= j < opts.len() && opts[j] == r;
            assert(r.len() <= l.len());
            if l.len() > 0 {
                assert(l.len() <= r.len());
                assert(r == t.subrange(0, r.len() as int));
                assert(l == t.subrange(0, l.len() as int));
            } else {
                assert(opts[j].len() <= l.len());
            }
        } else if l.len() > 0 {
            let j = choose|j: int| 0 <= j < opts.len() && opts[j] == l;
            assert(opts[j].len() <= r.len());
        } else {
            assert(r =~= l);
        }
    }
}

/// Option `o` is still a candidate after `k` characters of `t`.
pub open spec fn still_open(o: Seq<char>, t: Seq<char>, k: int) -> bool {
    k < o.len() && o.subrange(0, k) == t.subrange(0, k)
}

/// The longest of `options` that the text at `ic` starts with, compared
/// without regard to case, or the empty string where none is.
pub fn longest_match(source: &str, ic: Cursor, options: &Vec<&str>) -> (r: String)
    requires
        forall|j: int| 0 <= j < options.len() ==> options[j]@.len() > 0,
    ensures
        is_longest_option(opts_view(options@), folded_from(source@, ic.pointer as int), r@),
        r@ == longest_option(opts_view(options@), folded_from(source@, ic.pointer as int)),
{
    let ghost opts = opts_view(options@);
    let len = source.unicode_len();
    let ghost t = folded_from(source@, ic.pointer as int);
    if ic.pointer > len {
        proof {
            lemma_longest_option(opts, t, Seq::empty());
        }
        return String::new();
    }
    assert(t.len() == len - ic.pointer);
    let mut alive: Vec<bool> = Vec::new();
    let mut j: usize = 0;
    while j < options.len()
        invariant
            j <= options.len(),
            alive.len() == j,
            forall|i: int| 0 <= i < j ==> alive[i],
        decreases options.len() - j,
    {
        alive.push(true);
        j = j + 1;
    }
    proof {
        assert forall|i: int| 0 <= i < opts.len() implies #[trigger] still_open(opts[i], t, 0) by {
            assert(opts[i].subrange(0, 0) =~= t.subrange(0, 0));
        }
    }
    let mut k: usize = 0;
    let mut best: Option<usize> = None;
    let mut best_len: usize = 0;
    let mut any = options.len() > 0;
    proof {
        if options.len() > 0 {
            assert(alive[0]);
        }
    }
    while k < len - ic.pointer && any
        invariant
            len == source@.len(),
            ic.pointer <= len,
            t == folded_from(source@, ic.pointer as int),
            t.len() == len - ic.pointer,
            opts == opts_view(options@),
            forall|j: int| 0 <= j < options.len() ==> options[j]@.len() > 0,
            k <= t.len(),
            alive.len() == options.len(),
            forall|i: int| 0 <= i < opts.len() ==> alive[i] == still_open(opts[i], t, k as int),
            any == exists|i: int| 0 <= i < opts.len() && alive[i],
            forall|i: int|
                0 <= i < opts.len() && opts[i].len() <= k && is_prefix_of(opts[i], t)
                    ==> opts[i].len() <= best_len,
            best_len <= k,
            match best {
                Some(b) => b < opts.len() && opts[b as int].len() == best_len && is_prefix_of(
                    opts[b as int],
                    t,
                ) && best_len > 0,
                None => best_len == 0,
            },
        decreases t.len() - k,
    {
        let c = ascii_lower(source.get_char(ic.pointer + k));
        assert(c == t[k as int]);
        let ghost k0 = k as int;
        k = k + 1;
        any = false;
        let mut j: usize = 0;
        while j < options.len()
            invariant
                len == source@.len(),
                ic.pointer <= len,
                t == folded_from(source@, ic.pointer as int),
                t.len() == len - ic.pointer,
                opts == opts_view(options@),
                forall|j: int| 0 <= j < options.len() ==> options[j]@.len() > 0,
                k == k0 + 1,
                0 <= k0 < t.len(),
                c == t[k0],
                j <= options.len(),
                alive.len() == options.len(),
                forall|i: int| 0 <= i < j ==> alive[i] == still_open(opts[i], t, k as int),
                forall|i: int| j <= i < opts.len() ==> alive[i] == still_open(opts[i], t, k0),
                any == exists|i: int| 0 <= i < j && alive[i],
                forall|i: int|
                    0 <= i < j && opts[i].len() <= k && is_prefix_of(opts[i], t)
                        ==> opts[i].len() <= best_len,
                forall|i: int|
                    j <= i < opts.len() && opts[i].len() <= k0 && is_prefix_of(opts[i], t)
                        ==> opts[i].len() <= best_len,
                best_len <= k,
                match best {
                    Some(b) => b < opts.len() && opts[b as int].len() == best_len && is_prefix_of(
                        opts[b as int],
                        t,
                    ) && best_len > 0,
                    None => best_len == 0,
                },
            decreases options.len() - j,
        {
            let ghost o = opts[j as int];
            let ghost prev = alive@;
            let ghost prev_any = any;
            assert(o == options[j as int]@);
            if alive[j] {
                let oc = options[j].get_char(k - 1);
                if oc != c {
                    proof {
                        assert(o.subrange(0, k as int)[k0] != t.subrange(0, k as int)[k0]);
                    }
                    alive.set(j, false);
                } else {
                    proof {
                        assert(o.subrange(0, k as int) =~= t.subrange(0, k as int)) by {
                            assert forall|x: int| 0 <= x < k implies o[x] == t[x] by {
                                if x < k0 {
                                    assert(o.subrange(0, k0)[x] == t.subrange(0, k0)[x]);
                                }
                            }
                        }
                    }
                    let olen = options[j].unicode_len();
                    if olen == k {
                        proof {
                            assert(o.subrange(0, k as int) =~= o);
                        }
                        alive.set(j, false);
                        if k > best_len {
                            best = Some(j);
                            best_len = k;
                        }
                    } else {
                        any = true;
                        assert(alive[j as int]);
                    }
                }
            } else {
                proof {
                    if k0 < o.len() {
                        assert(!(o.subrange(0, k0) =~= t.subrange(0, k0)));
                        let x = choose|x: int| 0 <= x < k0 && o.subrange(0, k0)[x] != t.subrange(0, k0)[x];
                        assert(o.subrange(0, k as int)[x] != t.subrange(0, k as int)[x]);
                    }
                    if o.len() == k && is_prefix_of(o, t) {
                        assert(o.subrange(0, k0) =~= t.subrange(0, k0));
                    }
                }
            }
            proof {
                if prev_any {
                    let w = choose|i: int| 0 <= i < j && prev[i];
                    assert(alive[w]);
                }
                if exists|i: int| 0 <= i < j + 1 && alive[i] {
                    let w = choose|i: int| 0 <= i < j + 1 && alive[i];
                    if w < j {
                        assert(prev[w]);
                    }
                }
            }
            j = j + 1;
        }
    }
    proof {
        assert forall|i: int| 0 <= i < opts.len() && is_prefix_of(opts[i], t) implies opts[i].len()
            <= best_len by {
            if opts[i].len() > k {
                assert(!alive[i]);
                assert(opts[i].subrange(0, k as int) =~= t.subrange(0, k as int));
            }
        }
    }
    let r = match best {
        Some(b) => String::from_str(options[b]),
        None => String::new(),
    };
    proof {
        if let Some(b) = best {
            assert(opts[b as int] == r@);
        }
        lemma_longest_option(opts, t, r@);
    }
    r
}

fn keyword_options() -> (r: Vec<&'static str>)
    ensures
        opts_view(r@) == keywords(),
        forall|j: int| 0 <= j < r.len() ==> r[j]@.len() > 0,
{
    let mut r: Vec<&'static str> = Vec::new();
    r.push(SELECT_KEYWORD);
    r.push(FROM_KEYWORD);
    r.push(AS_KEYWORD);
    r.push(TABLE_KEYWORD);
    r.push(CREATE_KEYWORD);
    r.push(INSERT_KEYWORD);
    r.push(INTO_KEYWORD);
    r.push(VALUES_KEYWORD);
    r.push(INT_KEYWORD);
    r.push(TEXT_KEYWORD);
    r.push(BOOL_KEYWORD);
    r.push(WHERE_KEYWORD);
    r.push(AND_KEYWORD);
    r.push(OR_KEYWORD);
    r.push(TRUE_KEYWORD);
    r.push(FALSE_KEYWORD);
    proof {
        reveal_strlit("select");
        reveal_strlit("from");
        reveal_strlit("as");
        reveal_strlit("table");
        reveal_strlit("create");
        reveal_strlit("insert");
        reveal_strlit("into");
        reveal_strlit("values");
        reveal_strlit("int");
        reveal_strlit("text");
        reveal_strlit("boolean");
        reveal_strlit("where");
        reveal_strlit("and");
        reveal_strlit("or");
        reveal_strlit("true");
        reveal_strlit("false");
        assert(opts_view(r@) =~= keywords());
    }
    r
}

fn symbol_options() -> (r: Vec<&'static str>)
    ensures
        opts_view(r@) == symbols(),
        forall|j: int| 0 <= j < r.len() ==> r[j]@.len() > 0,
{
    let mut r: Vec<&'static str> = Vec::new();
    r.push(EQ_SYMBOL);
    r.push(NEQ_SYMBOL);
    r.push(CONCAT_SYMBOL);
    r.push(PLUS_SYMBOL);
    r.push(COMMA_SYMBOL);
    r.push(LEFTPAREN_SYMBOL);
    r.push(RIGHTPAREN_SYMBOL);
    r.push(SEMICOLON_SYMBOL);
    r.push(ASTERISK_SYMBOL);
    proof {
        reveal_strlit("=");
        reveal_strlit("<>");
        reveal_strlit("||");
        reveal_strlit("+");
        reveal_strlit(",");
        reveal_strlit("(");
        reveal_strlit(")");
        reveal_strlit(";");
        reveal_strlit("*");
        assert(opts_view(r@) =~= symbols());
    }
    r
}

/// A match of `m` at cursor `c`, as a token of kind `kind`.
pub open spec fn option_token(c: Cursor, m: Seq<char>, kind: TokenKind) -> Option<(Option<TokenV>, Cursor)> {
    if m.len() == 0 {
        None
    } else {
        Some((Some(TokenV { value: m, kind, loc: c.loc }), advance(c, m.len() as int)))
    }
}

pub open spec fn keyword_kind(m: Seq<char>) -> TokenKind {
    if m == TRUE_KEYWORD@ || m == FALSE_KEYWORD@ {
        TokenKind::BooleanKind
    } else {
        TokenKind::KeywordKind
    }
}

pub open spec fn keyword_scan(s: Seq<char>, c: Cursor) -> Option<(Option<TokenV>, Cursor)> {
    let m = longest_option(keywords(), folded_from(s, c.pointer as int));
    option_token(c, m, keyword_kind(m))
}

pub open spec fn symbol_scan(s: Seq<char>, c: Cursor) -> Option<(Option<TokenV>, Cursor)> {
    let p = c.pointer as int;
    if p >= s.len() {
        None
    } else if s[p] == '\n' {
        Some((None, Cursor { pointer: (p + 1) as usize, loc: Location { line: (c.loc.line + 1) as usize, col: 0 } }))
    } else if s[p] == '\t' || s[p] == ' ' {
        Some((None, advance(c, 1)))
    } else {
        option_token(c, longest_option(symbols(), folded_from(s, p)), TokenKind::SymbolKind)
    }
}

/// The matched text is at most what is left of the source.
proof fn lemma_match_fits(s: Seq<char>, p: int, opts: Seq<Seq<char>>, m: Seq<char>)
    requires
        is_longest_option(opts, folded_from(s, p), m),
    ensures
        m.len() > 0 ==> 0 <= p && p + m.len() <= s.len(),
{
    if m.len() > 0 {
        assert(is_prefix_of(m, folded_from(s, p)));
    }
}

pub fn lex_keyword(source: &str, ic: Cursor) -> (r: (Option<Token>, Cursor, bool))
    requires
        valid_cursor(ic),
    ensures
        scanned(r, ic, keyword_scan(source@, ic)),
{
    let len = source.unicode_len();
    let options = keyword_options();
    let matched = longest_match(source, ic, &options);
    let n = matched.as_str().unicode_len();
    if n == 0 {
        return (None, ic, false);
    }
    proof {
        lemma_match_fits(source@, ic.pointer as int, keywords(), matched@);
    }
    let kind = if matched == String::from_str(TRUE_KEYWORD) || matched == String::from_str(
        FALSE_KEYWORD,
    ) {
        TokenKind::BooleanKind
    } else {
        TokenKind::KeywordKind
    };
    let cur = Cursor { pointer: ic.pointer + n, loc: Location { line: ic.loc.line, col: ic.loc.col + n } };
    (Some(Token { value: matched, kind, loc: ic.loc }), cur, true)
}

pub fn lex_symbol(source: &str, ic: Cursor) -> (r: (Option<Token>, Cursor, bool))
    requires
        valid_cursor(ic),
    ensures
        scanned(r, ic, symbol_scan(source@, ic)),
{
    let len = source.unicode_len();
    if ic.pointer >= len {
        return (None, ic, false);
    }
    let c = source.get_char(ic.pointer);
    if c == '\n' {
        let cur = Cursor { pointer: ic.pointer + 1, loc: Location { line: ic.loc.line + 1, col: 0 } };
        return (None, cur, true);
    }
    if c == '\t' || c == ' ' {
        let cur = Cursor { pointer: ic.pointer + 1, loc: Location { line: ic.loc.line, col: ic.loc.col + 1 } };
        return (None, cur, true);
    }
    let options = symbol_options();
    let matched = longest_match(source, ic, &options);
    let n = matched.as_str().unicode_len();
    if n == 0 {
        return (None, ic, false);
    }
    proof {
        lemma_match_fits(source@, ic.pointer as int, symbols(), matched@);
    }
    let cur = Cursor { pointer: ic.pointer + n, loc: Location { line: ic.loc.line, col: ic.loc.col + n } };
    (Some(Token { value: matched, kind: TokenKind::SymbolKind, loc: ic.loc }), cur, true)
}

pub open spec fn is_letter(c: char) -> bool {
    ('A' <= c && c <= 'Z') || ('a' <= c && c <= 'z')
}

pub open spec fn is_identifier_char(c: char) -> bool {
    is_letter(c) || is_digit(c) || c == '$' || c == '_'
}

/// The first index from `i` on that holds no identifier character.
pub open spec fn identifier_end(s: Seq<char>, i: int) -> int
    decreases s.len() - i,
{
    if 0 <= i < s.len() && is_identifier_char(s[i]) {
        identifier_end(s, i + 1)
    } else {
        i
    }
}

pub open spec fn identifier_scan(s: Seq<char>, c: Cursor) -> Option<(Option<TokenV>, Cursor)> {
    let p = c.pointer as int;
    match delimited_scan(s, c, '"') {
        Some((Some(t), c2)) => Some((Some(TokenV { value: t.value, kind: TokenKind::IdentifierKind, loc: t.loc }), c2)),
        _ => if p < s.len() && is_letter(s[p]) {
            let e = identifier_end(s, p + 1);
            Some((
                Some(TokenV { value: lower_seq(s.subrange(p, e)), kind: TokenKind::IdentifierKind, loc: c.loc }),
                advance(c, e - p),
            ))
        } else {
            None
        },
    }
}

pub fn lex_identifier(source: &str, ic: Cursor) -> (r: (Option<Token>, Cursor, bool))
    requires
        valid_cursor(ic),
    ensures
        scanned(r, ic, identifier_scan(source@, ic)),
{
    let (token, new_cursor, ok) = lex_character_delimited(source, ic, '"');
    if ok {
        match token {
            Some(t) => {
                return (Some(Token { value: t.value, kind: TokenKind::IdentifierKind, loc: t.loc }), new_cursor, true);
            },
            None => {
                return (None, ic, false);
            },
        }
    }
    let len = source.unicode_len();
    if ic.pointer >= len {
        return (None, ic, false);
    }
    let c = source.get_char(ic.pointer);
    if !(('A' <= c && c <= 'Z') || ('a' <= c && c <= 'z')) {
        return (None, ic, false);
    }
    let mut value = String::new();
    push_char(&mut value, ascii_lower(c));
    let mut i: usize = ic.pointer + 1;
    let mut done = false;
    while i < len && !done
        invariant
            len == source@.len(),
            ic.pointer < i <= len,
            identifier_end(source@, ic.pointer + 1) == identifier_end(source@, i as int),
            value@ == lower_seq(source@.subrange(ic.pointer as int, i as int)),
            done ==> i < len && !is_identifier_char(source@[i as int]),
        decreases len - i, if done { 0int } else { 1int },
    {
        let c = source.get_char(i);
        if ('A' <= c && c <= 'Z') || ('a' <= c && c <= 'z') || ('0' <= c && c <= '9') || c == '$'
            || c == '_' {
            proof {
                assert(lower_seq(source@.subrange(ic.pointer as int, i + 1)) =~= lower_seq(
                    source@.subrange(ic.pointer as int, i as int),
                ).push(lower_char(c)));
            }
            push_char(&mut value, ascii_lower(c));
            i = i + 1;
        } else {
            done = true;
        }
    }
    proof {
        assert(identifier_end(source@, i as int) == i);
    }
    let n = i - ic.pointer;
    let cur = Cursor { pointer: i, loc: Location { line: ic.loc.line, col: ic.loc.col + n } };
    (Some(Token { value, kind: TokenKind::IdentifierKind, loc: ic.loc }), cur, true)
}

/// The first of the keyword, symbol, string, numeric and identifier
/// scanners, in that order, that matches at `c`.
pub open spec fn scan_step(s: Seq<char>, c: Cursor) -> Option<(Option<TokenV>, Cursor)> {
    if keyword_scan(s, c) is Some {
        keyword_scan(s, c)
    } else if symbol_scan(s, c) is Some {
        symbol_scan(s, c)
    } else if delimited_scan(s, c, '\'') is Some {
        delimited_scan(s, c, '\'')
    } else if numeric_scan(s, c) is Some {
        numeric_scan(s, c)
    } else {
        identifier_scan(s, c)
    }
}

/// The tokens read from `c` on, and the location where reading failed, if it did.
pub open spec fn lex_from(s: Seq<char>, c: Cursor) -> (Seq<TokenV>, Option<Location>)
    decreases s.len() - c.pointer,
{
    if c.pointer >= s.len() {
        (Seq::empty(), None)
    } else {
        match scan_step(s, c) {
            None => (Seq::empty(), Some(c.loc)),
            // A step always moves forward within the source (lemma_scan_step_progress);
            // the first branch only makes the recursion evidently finite.
            Some((t, c2)) => if c2.pointer <= c.pointer || c2.pointer > s.len() {
                (Seq::empty(), Some(c.loc))
            } else {
                let (ts, err) = lex_from(s, c2);
                (
                    match t {
                        Some(t) => seq![t] + ts,
                        None => ts,
                    },
                    err,
                )
            },
        }
    }
}

/// Tokenizing `s` from its start.
pub open spec fn tokenize(s: Seq<char>) -> (Seq<TokenV>, Option<Location>) {
    lex_from(s, Cursor { pointer: 0, loc: Location { line: 0, col: 0 } })
}

pub open spec fn tokens_view(v: Seq<Token>) -> Seq<TokenV> {
    v.map_values(|t: Token| t@)
}

/// A failure to tokenize: where it happened and the value of the token
/// read just before, if any.
#[derive(Debug)]
pub struct LexError {
    pub loc: Location,
    pub after: Option<String>,
}

proof fn lemma_delimited_run_bounds(s: Seq<char>, i: int, d: char)
    ensures
        delimited_run(s, i, d) matches Some((e, v)) ==> i < e <= s.len(),
    decreases s.len() - i,
{
    if 0 <= i < s.len() {
        if s[i] == d && i + 1 < s.len() && s[i + 1] == d {
            lemma_delimited_run_bounds(s, i + 2, d);
        } else if s[i] != d {
            lemma_delimited_run_bounds(s, i + 1, d);
        }
    }
}

proof fn lemma_numeric_tail_bounds(s: Seq<char>, i: int, period: bool, exp: bool)
    requires
        0 <= i <= s.len(),
    ensures
        numeric_tail(s, i, period, exp) matches Some(e) ==> i <= e <= s.len(),
    decreases s.len() - i,
{
    if i < s.len() {
        if s[i] == '.' {
            if !period {
                lemma_numeric_tail_bounds(s, i + 1, true, exp);
            }
        } else if s[i] == 'e' {
            if !exp && i + 1 < s.len() {
                if s[i + 1] == '-' || s[i + 1] == '+' {
                    lemma_numeric_tail_bounds(s, i + 2, true, true);
                } else {
                    lemma_numeric_tail_bounds(s, i + 1, true, true);
                }
            }
        } else if is_digit(s[i]) {
            lemma_numeric_tail_bounds(s, i + 1, period, exp);
        }
    }
}

proof fn lemma_identifier_end_bounds(s: Seq<char>, i: int)
    requires
        0 <= i <= s.len(),
    ensures
        i <= identifier_end(s, i) <= s.len(),
    decreases s.len() - i,
{
    if i < s.len() && is_identifier_char(s[i]) {
        lemma_identifier_end_bounds(s, i + 1);
    }
}

/// A step of the tokenizer moves forward, within the source, and moves the
/// line and column by no more than the characters it read.
proof fn lemma_scan_step_progress(s: Seq<char>, c: Cursor)
    requires
        c.pointer < s.len(),
        s.len() <= usize::MAX,
    ensures
        scan_step(s, c) matches Some((t, c2)) ==> {
            &&& c.pointer < c2.pointer <= s.len()
            &&& c2.loc.col <= c.loc.col + (c2.pointer - c.pointer)
            &&& c2.loc.line <= c.loc.line + (c2.pointer - c.pointer)
        },
{
    let p = c.pointer as int;
    let t = folded_from(s, p);
    assert(forall|j: int| 0 <= j < keywords().len() ==> keywords()[j].len() > 0) by {
        reveal_strlit("select");
        reveal_strlit("from");
        reveal_strlit("as");
        reveal_strlit("table");
        reveal_strlit("create");
        reveal_strlit("insert");
        reveal_strlit("into");
        reveal_strlit("values");
        reveal_strlit("int");
        reveal_strlit("text");
        reveal_strlit("boolean");
        reveal_strlit("where");
        reveal_strlit("and");
        reveal_strlit("or");
        reveal_strlit("true");
        reveal_strlit("false");
    }
    assert(forall|j: int| 0 <= j < symbols().len() ==> symbols()[j].len() > 0) by {
        reveal_strlit("=");
        reveal_strlit("<>");
        reveal_strlit("||");
        reveal_strlit("+");
        reveal_strlit(",");
        reveal_strlit("(");
        reveal_strlit(")");
        reveal_strlit(";");
        reveal_strlit("*");
    }
    lemma_longest_option(keywords(), t, Seq::empty());
    lemma_match_fits(s, p, keywords(), longest_option(keywords(), t));
    lemma_longest_option(symbols(), t, Seq::empty());
    lemma_match_fits(s, p, symbols(), longest_option(symbols(), t));
    lemma_delimited_run_bounds(s, p + 1, '\'');
    lemma_delimited_run_bounds(s, p + 1, '"');
    if is_digit(s[p]) || s[p] == '.' {
        lemma_numeric_tail_bounds(s, p + 1, s[p] == '.', false);
    }
    lemma_identifier_end_bounds(s, p + 1);
}

/// Runs the scanners in their fixed order at `ic` and keeps the first match.
fn lex_step(source: &str, ic: Cursor) -> (r: (Option<Token>, Cursor, bool))
    requires
        valid_cursor(ic),
    ensures
        scanned(r, ic, scan_step(source@, ic)),
{
    let r = lex_keyword(source, ic);
    if r.2 {
        return r;
    }
    let r = lex_symbol(source, ic);
    if r.2 {
        return r;
    }
    let r = lex_string(source, ic);
    if r.2 {
        return r;
    }
    let r = lex_numeric(source, ic);
    if r.2 {
        return r;
    }
    lex_identifier(source, ic)
}

/// `e` reports how tokenizing `s` failed.
pub open spec fn reports_lex_failure(s: Seq<char>, e: LexError) -> bool {
    let (ts, err) = tokenize(s);
    &&& err == Some(e.loc)
    &&& match e.after {
        Some(a) => ts.len() > 0 && a@ == ts.last().value,
        None => ts.len() == 0,
    }
}

pub fn lex(source: &str) -> (r: Result<Vec<Token>, LexError>)
    ensures
        match r {
            Ok(tokens) => tokenize(source@) == (tokens_view(tokens@), None::<Location>),
            Err(e) => reports_lex_failure(source@, e),
        },
{
    let len = source.unicode_len();
    let mut tokens: Vec<Token> = Vec::new();
    let mut cur = Cursor::new();
    let ghost start = cur;
    while cur.pointer < len
        invariant
            len == source@.len(),
            cur.pointer <= len,
            cur.loc.col <= cur.pointer,
            cur.loc.line <= cur.pointer,
            lex_from(source@, start).0 == tokens_view(tokens@) + lex_from(source@, cur).0,
            lex_from(source@, start).1 == lex_from(source@, cur).1,
            start == (Cursor { pointer: 0, loc: Location { line: 0, col: 0 } }),
        decreases len - cur.pointer,
    {
        proof {
            lemma_scan_step_progress(source@, cur);
        }
        let (token, new_cursor, ok) = lex_step(source, cur);
        if !ok {
            let after = if tokens.len() > 0 {
                Some(tokens[tokens.len() - 1].value.clone())
            } else {
                None
            };
            proof {
                assert(lex_from(source@, cur) == (Seq::<TokenV>::empty(), Some(cur.loc)));
                assert(tokens_view(tokens@) + Seq::<TokenV>::empty() =~= tokens_view(tokens@));
                if tokens.len() > 0 {
                    assert(tokens_view(tokens@).last() == tokens@.last()@);
                }
            }
            return Err(LexError { loc: cur.loc, after });
        }
        match token {
            Some(t) => {
                proof {
                    let rest = lex_from(source@, new_cursor).0;
                    assert(tokens_view(tokens@.push(t)) =~= tokens_view(tokens@).push(t@));
                    assert(tokens_view(tokens@) + (seq![t@] + rest) =~= tokens_view(tokens@).push(t@)
                        + rest);
                }
                tokens.push(t);
            },
            None => {},
        }
        cur = new_cursor;
    }
    proof {
        assert(tokens_view(tokens@) + Seq::<TokenV>::empty() =~= tokens_view(tokens@));
    }
    Ok(tokens)
}

pub open spec fn is_whitespace(c: char) -> bool {
    c == ' ' || c == '\t' || c == '\n'
}

/// No option matches where the text starts with a character that starts none of them.
proof fn lemma_no_option_matches(opts: Seq<Seq<char>>, t: Seq<char>)
    requires
        t.len() > 0,
        forall|j: int| 0 <= j < opts.len() ==> opts[j].len() > 0 && opts[j][0] != t[0],
    ensures
        longest_option(opts, t).len() == 0,
{
    let m = longest_option(opts, t);
    lemma_longest_option(opts, t, m);
    if m.len() > 0 {
        let j = choose|j: int| 0 <= j < opts.len() && opts[j] == m;
        assert(t.subrange(0, m.len() as int)[0] == m[0]);
    }
}

proof fn lemma_whitespace_from(s: Seq<char>, c: Cursor)
    requires
        s.len() <= usize::MAX,
        forall|i: int| 0 <= i < s.len() ==> is_whitespace(s[i]),
    ensures
        lex_from(s, c) == (Seq::<TokenV>::empty(), None::<Location>),
    decreases s.len() - c.pointer,
{
    if c.pointer < s.len() {
        let p = c.pointer as int;
        let t = folded_from(s, p);
        assert(t[0] == lower_char(s[p]));
        assert(!is_letter(t[0]));
        assert(forall|j: int|
            0 <= j < keywords().len() ==> keywords()[j].len() > 0 && is_letter(
                #[trigger] keywords()[j][0],
            )) by {
            reveal_strlit("select");
            reveal_strlit("from");
            reveal_strlit("as");
            reveal_strlit("table");
            reveal_strlit("create");
            reveal_strlit("insert");
            reveal_strlit("into");
            reveal_strlit("values");
            reveal_strlit("int");
            reveal_strlit("text");
            reveal_strlit("boolean");
            reveal_strlit("where");
            reveal_strlit("and");
            reveal_strlit("or");
            reveal_strlit("true");
            reveal_strlit("false");
        }
        assert forall|j: int| 0 <= j < keywords().len() implies keywords()[j].len() > 0
            && keywords()[j][0] != t[0] by {
            assert(is_letter(keywords()[j][0]));
        }
        lemma_no_option_matches(keywords(), t);
        assert(keyword_scan(s, c) is None);
        let c2 = symbol_scan(s, c).unwrap().1;
        assert(c2.pointer == c.pointer + 1);
        lemma_whitespace_from(s, c2);
    }
}

/// Text made of spaces, tabs and newlines alone tokenizes to no tokens.
pub proof fn lemma_whitespace_only(s: Seq<char>)
    requires
        s.len() <= usize::MAX,
        forall|i: int| 0 <= i < s.len() ==> is_whitespace(s[i]),
    ensures
        tokenize(s) == (Seq::<TokenV>::empty(), None::<Location>),
{
    lemma_whitespace_from(s, Cursor { pointer: 0, loc: Location { line: 0, col: 0 } });
}

/// Only a delimited run (a string, or a quoted identifier) may give a token
/// with an empty value.
pub open spec fn has_text(t: TokenV) -> bool {
    t.kind != TokenKind::StringKind && t.kind != TokenKind::IdentifierKind ==> t.value.len() > 0
}

proof fn lemma_scan_step_has_text(s: Seq<char>, c: Cursor)
    requires
        c.pointer < s.len(),
    ensures
        scan_step(s, c) matches Some((Some(t), c2)) ==> has_text(t),
{
    let p = c.pointer as int;
    if keyword_scan(s, c) is None && symbol_scan(s, c) is None && delimited_scan(s, c, '\'') is None
        && numeric_scan(s, c) is Some {
        if is_digit(s[p]) || s[p] == '.' {
            lemma_numeric_tail_bounds(s, p + 1, s[p] == '.', false);
        }
    }
}

proof fn lemma_lex_from_has_text(s: Seq<char>, c: Cursor)
    ensures
        forall|i: int| 0 <= i < lex_from(s, c).0.len() ==> has_text(#[trigger] lex_from(s, c).0[i]),
    decreases s.len() - c.pointer,
{
    if c.pointer < s.len() {
        lemma_scan_step_has_text(s, c);
        if let Some((t, c2)) = scan_step(s, c) {
            if c.pointer < c2.pointer <= s.len() {
                lemma_lex_from_has_text(s, c2);
                let ts = lex_from(s, c2).0;
                if let Some(t) = t {
                    assert forall|i: int| 0 <= i < lex_from(s, c).0.len() implies has_text(
                        #[trigger] lex_from(s, c).0[i],
                    ) by {
                        if i > 0 {
                            assert(lex_from(s, c).0[i] == ts[i - 1]);
                        }
                    }
                }
            }
        }
    }
}

/// Every token that tokenizing gives has a non-empty value, but for strings
/// and identifiers, whose delimiters are dropped.
pub proof fn lemma_tokens_have_text(s: Seq<char>)
    ensures
        forall|i: int| 0 <= i < tokenize(s).0.len() ==> has_text(#[trigger] tokenize(s).0[i]),
{
    lemma_lex_from_has_text(s, Cursor { pointer: 0, loc: Location { line: 0, col: 0 } });
}

} // verus!
