use vstd::prelude::*;
use vstd::utf8::{decode_utf8, encode_utf8, valid_utf8};

use crate::ast::{
    ColumnDefinitionV, CreateTableStatement, ExpressionV, InsertStatement, SelectStatement,
};
use crate::backend::{Backend, BackendError, Cell, Column, ColumnType, Results};
use crate::lexer::{is_digit, Token, TokenKind, TokenV, INT_KEYWORD, TEXT_KEYWORD};

verus! {

/// A stored value: an integer as four big-endian bytes, or text as its UTF-8 bytes.
#[derive(Debug)]
pub struct MemoryCell(pub Vec<u8>);

impl View for MemoryCell {
    type V = Seq<u8>;

    open spec fn view(&self) -> Seq<u8> {
        self.0@
    }
}

impl Clone for MemoryCell {
    fn clone(&self) -> (r: MemoryCell)
        ensures
            r@ == self@,
    {
        MemoryCell(self.0.clone())
    }
}

/// The unsigned value of four big-endian bytes.
pub open spec fn be_unsigned(b: Seq<u8>) -> int {
    b[0] * 0x100_0000 + b[1] * 0x1_0000 + b[2] * 0x100 + b[3]
}

/// The two's-complement value of four big-endian bytes.
pub open spec fn be_i32(b: Seq<u8>) -> int {
    let u = be_unsigned(b);
    if u >= 0x8000_0000 {
        u - 0x1_0000_0000
    } else {
        u
    }
}

/// The four big-endian bytes of `n` in two's complement.
pub open spec fn int_bytes(n: i32) -> Seq<u8> {
    let u: int = if n < 0 {
        n + 0x1_0000_0000
    } else {
        n as int
    };
    seq![
        (u / 0x100_0000) as u8,
        ((u / 0x1_0000) % 0x100) as u8,
        ((u / 0x100) % 0x100) as u8,
        (u % 0x100) as u8,
    ]
}

/// The value of a run of decimal digits.
pub open spec fn digits_value(s: Seq<char>) -> int
    decreases s.len(),
{
    if s.len() == 0 {
        0
    } else {
        digits_value(s.drop_last()) * 10 + (s.last() as u32 - '0' as u32)
    }
}

/// The `i32` that `s` writes in decimal: an optional sign, then one or more
/// digits, with a value in range.
pub open spec fn decimal_i32(s: Seq<char>) -> Option<i32> {
    let signed = s.len() > 0 && (s[0] == '+' || s[0] == '-');
    let digits = if signed {
        s.subrange(1, s.len() as int)
    } else {
        s
    };
    let v = if signed && s[0] == '-' {
        -digits_value(digits)
    } else {
        digits_value(digits)
    };
    if digits.len() > 0 && (forall|i: int| 0 <= i < digits.len() ==> is_digit(digits[i])) && i32::MIN
        <= v <= i32::MAX {
        Some(v as i32)
    } else {
        None
    }
}

/// Relies on `str::parse::<i32>` (i32's `FromStr`): it accepts an optional
/// `+` or `-` followed by one or more decimal digits, and a value in range.
#[verifier::external_body]
fn parse_i32(s: &str) -> (r: Option<i32>)
    ensures
        r == decimal_i32(s@),
{
    s.parse::<i32>().ok()
}

/// Relies on `String::from_utf8`: it succeeds exactly on valid UTF-8, with
/// the characters that the bytes encode.
#[verifier::external_body]
fn decode_text(b: &Vec<u8>) -> (r: Option<String>)
    ensures
        match r {
            Some(s) => valid_utf8(b@) && s@ == decode_utf8(b@),
            None => !valid_utf8(b@),
        },
{
    String::from_utf8(b.clone()).ok()
}

fn int_cell(n: i32) -> (r: MemoryCell)
    ensures
        r@ == int_bytes(n),
{
    let u: u64 = if n < 0 {
        (n as i64 + 0x1_0000_0000) as u64
    } else {
        n as u64
    };
    let mut b: Vec<u8> = Vec::new();
    b.push((u / 0x100_0000) as u8);
    b.push(((u / 0x1_0000) % 0x100) as u8);
    b.push(((u / 0x100) % 0x100) as u8);
    b.push((u % 0x100) as u8);
    proof {
        assert(b@ =~= int_bytes(n));
    }
    MemoryCell(b)
}

/// The bytes a token is stored as: a number that fits `i32` as an integer,
/// a string as text; no other token is a value.
pub open spec fn cell_of(t: TokenV) -> Option<Seq<u8>> {
    match t.kind {
        TokenKind::NumericKind => match decimal_i32(t.value) {
            Some(n) => Some(int_bytes(n)),
            None => None,
        },
        TokenKind::StringKind => Some(encode_utf8(t.value)),
        _ => None,
    }
}

impl Cell for MemoryCell {
    fn as_text(&self) -> (r: String)
        ensures
            valid_utf8(self@) ==> r@ == decode_utf8(self@),
            !valid_utf8(self@) ==> r@ == Seq::<char>::empty(),
    {
        match decode_text(&self.0) {
            Some(s) => s,
            None => String::new(),
        }
    }

    fn as_int(&self) -> (r: i32)
        ensures
            self@.len() == 4 ==> r == be_i32(self@),
            self@.len() != 4 ==> r == 0,
    {
        if self.0.len() == 4 {
            let u: u64 = (self.0[0] as u64) * 0x100_0000 + (self.0[1] as u64) * 0x1_0000 + (
            self.0[2] as u64) * 0x100 + (self.0[3] as u64);
            if u >= 0x8000_0000 {
                (u as i64 - 0x1_0000_0000) as i32
            } else {
                u as i32
            }
        } else {
            0
        }
    }
}

/// A stored table, as a value.
pub struct TableV {
    pub name: Seq<char>,
    pub columns: Seq<Seq<char>>,
    pub types: Seq<ColumnType>,
    pub rows: Seq<Seq<Seq<u8>>>,
}

struct Table {
    name: String,
    columns: Vec<String>,
    column_types: Vec<ColumnType>,
    rows: Vec<Vec<MemoryCell>>,
}

pub open spec fn cells_view(r: Seq<MemoryCell>) -> Seq<Seq<u8>> {
    r.map_values(|c: MemoryCell| c@)
}

pub open spec fn rows_view(rows: Seq<Vec<MemoryCell>>) -> Seq<Seq<Seq<u8>>> {
    rows.map_values(|r: Vec<MemoryCell>| cells_view(r@))
}

pub open spec fn strings_view(v: Seq<String>) -> Seq<Seq<char>> {
    v.map_values(|s: String| s@)
}

impl Table {
    spec fn view(&self) -> TableV {
        TableV {
            name: self.name@,
            columns: strings_view(self.columns@),
            types: self.column_types@,
            rows: rows_view(self.rows@),
        }
    }
}

/// Tables keyed by name, each with its column names, column types and rows.
pub struct MemoryBackend {
    tables: Vec<Table>,
}

/// Each table has one type per column and one cell per column in each row.
pub open spec fn tables_well_formed(ts: Seq<TableV>) -> bool {
    forall|i: int|
        0 <= i < ts.len() ==> {
            &&& #[trigger] ts[i].types.len() == ts[i].columns.len()
            &&& forall|r: int| 0 <= r < ts[i].rows.len() ==> #[trigger] ts[i].rows[r].len() == ts[i].columns.len()
        }
}

impl View for MemoryBackend {
    type V = Seq<TableV>;

    closed spec fn view(&self) -> Seq<TableV> {
        self.tables@.map_values(|t: Table| t.view())
    }
}

impl MemoryBackend {
    #[verifier::type_invariant]
    closed spec fn well_formed(self) -> bool {
        tables_well_formed(self@)
    }

    pub fn new() -> (r: MemoryBackend)
        ensures
            r@ == Seq::<TableV>::empty(),
    {
        let r = MemoryBackend { tables: Vec::new() };
        proof {
            assert(r@ =~= Seq::<TableV>::empty());
        }
        r
    }

    /// The cell a literal token is stored as.
    pub fn token_to_cell(token: &Token) -> (r: Option<MemoryCell>)
        ensures
            match r {
                Some(c) => cell_of(token@) == Some(c@),
                None => cell_of(token@) is None,
            },
    {
        match token.kind {
            TokenKind::NumericKind => match parse_i32(token.value.as_str()) {
                Some(n) => Some(int_cell(n)),
                None => None,
            },
            TokenKind::StringKind => Some(MemoryCell(token.value.as_str().as_bytes_vec())),
            _ => None,
        }
    }
}

/// The first index at which `name` stands in `names`.
pub open spec fn first_index(names: Seq<Seq<char>>, name: Seq<char>) -> Option<int>
    decreases names.len(),
{
    if names.len() == 0 {
        None
    } else if names[0] == name {
        Some(0)
    } else {
        match first_index(names.drop_first(), name) {
            Some(i) => Some(i + 1),
            None => None,
        }
    }
}

proof fn lemma_first_index(names: Seq<Seq<char>>, name: Seq<char>, j: int)
    requires
        0 <= j <= names.len(),
        forall|i: int| 0 <= i < j ==> names[i] != name,
    ensures
        j < names.len() && names[j] == name ==> first_index(names, name) == Some(j),
        j == names.len() ==> first_index(names, name) is None,
    decreases j,
{
    if j > 0 {
        lemma_first_index(names.drop_first(), name, j - 1);
    }
}

/// Where `name` first stands in `names`, found from the front.
fn position(names: &Vec<String>, name: &String) -> (r: Option<usize>)
    ensures
        match r {
            Some(j) => first_index(strings_view(names@), name@) == Some(j as int) && j < names.len(),
            None => first_index(strings_view(names@), name@) is None,
        },
{
    let ghost v = strings_view(names@);
    let mut j: usize = 0;
    while j < names.len()
        invariant
            j <= names.len(),
            v == strings_view(names@),
            forall|i: int| 0 <= i < j ==> v[i] != name@,
        decreases names.len() - j,
    {
        if names[j] == *name {
            proof {
                lemma_first_index(v, name@, j as int);
            }
            return Some(j);
        }
        j = j + 1;
    }
    proof {
        lemma_first_index(v, name@, j as int);
    }
    None
}

pub open spec fn table_names(ts: Seq<TableV>) -> Seq<Seq<char>> {
    ts.map_values(|t: TableV| t.name)
}

/// The index of the table named `name`.
pub open spec fn table_index(ts: Seq<TableV>, name: Seq<char>) -> Option<int> {
    first_index(table_names(ts), name)
}

/// The type that a column definition declares: `int` or `text`.
pub open spec fn column_type_of(t: TokenV) -> Option<ColumnType> {
    if t.value == INT_KEYWORD@ {
        Some(ColumnType::IntType)
    } else if t.value == TEXT_KEYWORD@ {
        Some(ColumnType::TextType)
    } else {
        None
    }
}

/// The types that `cols` declare, where each declares a known one.
pub open spec fn column_types_of(cols: Seq<ColumnDefinitionV>) -> Option<Seq<ColumnType>> {
    if forall|i: int| 0 <= i < cols.len() ==> (#[trigger] column_type_of(cols[i].datatype)) is Some {
        Some(Seq::new(cols.len(), |i: int| column_type_of(cols[i].datatype).unwrap()))
    } else {
        None
    }
}

/// The row that `values` are stored as, where each is a storable value.
pub open spec fn row_of(values: Seq<ExpressionV>) -> Option<Seq<Seq<u8>>> {
    if forall|i: int| 0 <= i < values.len() ==> (#[trigger] cell_of(values[i].literal)) is Some {
        Some(Seq::new(values.len(), |i: int| cell_of(values[i].literal).unwrap()))
    } else {
        None
    }
}

/// The column of `t` that each of `items` names, where each is an
/// identifier that names one.
pub open spec fn positions_of(t: TableV, items: Seq<ExpressionV>) -> Option<Seq<int>> {
    if forall|i: int|
        0 <= i < items.len() ==> (#[trigger] items[i].literal).kind == TokenKind::IdentifierKind
            && first_index(t.columns, items[i].literal.value) is Some {
        Some(Seq::new(items.len(), |i: int| first_index(t.columns, items[i].literal.value).unwrap()))
    } else {
        None
    }
}

impl MemoryBackend {
    /// Where the table named `name` stands, found from the front.
    fn table_position(&self, name: &String) -> (r: Option<usize>)
        ensures
            match r {
                Some(k) => table_index(self@, name@) == Some(k as int) && k < self@.len(),
                None => table_index(self@, name@) is None,
            },
    {
        let ghost v = table_names(self@);
        let mut k: usize = 0;
        while k < self.tables.len()
            invariant
                k <= self.tables.len(),
                v == table_names(self@),
                v.len() == self.tables.len(),
                forall|i: int| 0 <= i < k ==> v[i] != name@,
            decreases self.tables.len() - k,
        {
            if self.tables[k].name == *name {
                proof {
                    assert(v[k as int] == self.tables@[k as int].name@);
                    lemma_first_index(v, name@, k as int);
                }
                return Some(k);
            }
            assert(v[k as int] == self.tables@[k as int].name@);
            k = k + 1;
        }
        proof {
            lemma_first_index(v, name@, k as int);
        }
        None
    }
}

pub open spec fn result_columns(cols: Seq<Column>) -> Seq<(Seq<char>, ColumnType)> {
    cols.map_values(|c: Column| (c.name@, c.col_type))
}

pub open spec fn result_rows(rows: Seq<Vec<MemoryCell>>) -> Seq<Seq<Seq<u8>>> {
    rows_view(rows)
}

/// The name and type of the columns at positions `ps` of `t`.
pub open spec fn projected_columns(t: TableV, ps: Seq<int>) -> Seq<(Seq<char>, ColumnType)> {
    ps.map_values(|p: int| (t.columns[p], t.types[p]))
}

/// Each row of `t`, cut down to the cells at positions `ps`.
pub open spec fn projected_rows(t: TableV, ps: Seq<int>) -> Seq<Seq<Seq<u8>>> {
    t.rows.map_values(|row: Seq<Seq<u8>>| ps.map_values(|p: int| row[p]))
}

pub open spec fn column_names(cols: Seq<ColumnDefinitionV>) -> Seq<Seq<char>> {
    cols.map_values(|c: ColumnDefinitionV| c.name.value)
}

impl Backend for MemoryBackend {
    type Cell = MemoryCell;

    /// Adds an empty table with the statement's name and columns; a table of
    /// that name must not exist yet, and each type must be `int` or `text`.
    fn create_table(&mut self, crt: &CreateTableStatement) -> (r: Result<(), BackendError>)
        ensures
            match table_index(old(self)@, crt@.name.value) {
                Some(_) => r == Err::<(), BackendError>(BackendError::TableAlreadyExists)
                    && final(self)@ == old(self)@,
                None => match column_types_of(crt@.cols) {
                    None => r == Err::<(), BackendError>(BackendError::InvalidDatatype)
                        && final(self)@ == old(self)@,
                    Some(types) => r is Ok && final(self)@ == old(self)@.push(
                        TableV {
                            name: crt@.name.value,
                            columns: column_names(crt@.cols),
                            types,
                            rows: Seq::empty(),
                        },
                    ),
                },
            },
    {
        proof {
            use_type_invariant(&*self);
        }
        if self.table_position(&crt.name.value).is_some() {
            return Err(BackendError::TableAlreadyExists);
        }
        let ghost cols = crt@.cols;
        let int_name = String::from_str(INT_KEYWORD);
        let text_name = String::from_str(TEXT_KEYWORD);
        let mut columns: Vec<String> = Vec::new();
        let mut column_types: Vec<ColumnType> = Vec::new();
        let mut i: usize = 0;
        while i < crt.cols.len()
            invariant
                cols == crt@.cols,
                cols.len() == crt.cols.len(),
                table_index(self@, crt@.name.value) is None,
                tables_well_formed(self@),
                int_name@ == INT_KEYWORD@,
                text_name@ == TEXT_KEYWORD@,
                i <= crt.cols.len(),
                columns.len() == i,
                column_types.len() == i,
                forall|j: int| 0 <= j < i ==> column_type_of(cols[j].datatype) is Some,
                strings_view(columns@) =~= column_names(cols).subrange(0, i as int),
                forall|j: int|
                    0 <= j < i ==> column_types@[j] == column_type_of(cols[j].datatype).unwrap(),
            decreases crt.cols.len() - i,
        {
            let c = &crt.cols[i];
            assert(cols[i as int] == c@);
            let t = if c.datatype.value == int_name {
                ColumnType::IntType
            } else if c.datatype.value == text_name {
                ColumnType::TextType
            } else {
                proof {
                    assert(column_type_of(cols[i as int].datatype) is None);
                }
                return Err(BackendError::InvalidDatatype);
            };
            columns.push(c.name.value.clone());
            column_types.push(t);
            i = i + 1;
        }
        let ghost types = column_types_of(cols).unwrap();
        assert(column_types@ =~= types);
        let table = Table {
            name: crt.name.value.clone(),
            columns,
            column_types,
            rows: Vec::new(),
        };
        let ghost before = self@;
        let mut tables: Vec<Table> = Vec::new();
        core::mem::swap(&mut self.tables, &mut tables);
        proof {
            assert(strings_view(table.columns@) =~= column_names(cols));
            assert(table.view().rows =~= Seq::<Seq<Seq<u8>>>::empty());
            assert(tables@.push(table).map_values(|t: Table| t.view()) =~= before.push(table.view()));
        }
        tables.push(table);
        self.tables = tables;
        Ok(())
    }

    /// Appends the statement's values as a row of the named table; there must
    /// be one value per column, each a number that fits `i32` or a string.
    fn insert(&mut self, inst: &InsertStatement) -> (r: Result<(), BackendError>)
        ensures
            match table_index(old(self)@, inst@.table.value) {
                None => r == Err::<(), BackendError>(BackendError::TableDoesNotExist)
                    && final(self)@ == old(self)@,
                Some(k) => {
                    let t = old(self)@[k];
                    if inst@.values.len() != t.columns.len() {
                        r == Err::<(), BackendError>(BackendError::MissingValues)
                            && final(self)@ == old(self)@
                    } else {
                        match row_of(inst@.values) {
                            None => r == Err::<(), BackendError>(BackendError::InvalidValue)
                                && final(self)@ == old(self)@,
                            Some(row) => r is Ok && final(self)@ == old(self)@.update(
                                k,
                                TableV {
                                    name: t.name,
                                    columns: t.columns,
                                    types: t.types,
                                    rows: t.rows.push(row),
                                },
                            ),
                        }
                    }
                },
            },
    {
        proof {
            use_type_invariant(&*self);
        }
        let k = match self.table_position(&inst.table.value) {
            Some(k) => k,
            None => {
                return Err(BackendError::TableDoesNotExist);
            },
        };
        assert(self@[k as int] == self.tables@[k as int].view());
        if inst.values.len() != self.tables[k].columns.len() {
            return Err(BackendError::MissingValues);
        }
        let ghost values = inst@.values;
        let mut row: Vec<MemoryCell> = Vec::new();
        let mut i: usize = 0;
        while i < inst.values.len()
            invariant
                values == inst@.values,
                values.len() == inst.values.len(),
                table_index(self@, inst@.table.value) == Some(k as int),
                k < self@.len(),
                values.len() == self@[k as int].columns.len(),
                tables_well_formed(self@),
                i <= inst.values.len(),
                row.len() == i,
                forall|j: int| 0 <= j < i ==> cell_of(values[j].literal) is Some,
                forall|j: int| 0 <= j < i ==> row@[j]@ == cell_of(values[j].literal).unwrap(),
            decreases inst.values.len() - i,
        {
            assert(values[i as int] == inst.values@[i as int]@);
            match MemoryBackend::token_to_cell(&inst.values[i].literal) {
                Some(c) => {
                    row.push(c);
                },
                None => {
                    proof {
                        assert(cell_of(values[i as int].literal) is None);
                    }
                    return Err(BackendError::InvalidValue);
                },
            }
            i = i + 1;
        }
        let ghost cells = row_of(values).unwrap();
        assert(cells_view(row@) =~= cells);
        let ghost before = self@;
        assert(tables_well_formed(before));
        let mut tables: Vec<Table> = Vec::new();
        core::mem::swap(&mut self.tables, &mut tables);
        let ghost old_table = tables@[k as int];
        tables[k].rows.push(row);
        proof {
            let t = tables@[k as int];
            assert(rows_view(t.rows@) =~= rows_view(old_table.rows@).push(cells));
            assert(tables@.map_values(|t: Table| t.view()) =~= before.update(k as int, t.view()));
            let after = before.update(k as int, t.view());
            assert forall|j: int| 0 <= j < after.len() implies {
                &&& #[trigger] after[j].types.len() == after[j].columns.len()
                &&& forall|r: int| 0 <= r < after[j].rows.len() ==> #[trigger] after[j].rows[r].len() == after[j].columns.len()
            } by {
                assert(before[j].types.len() == before[j].columns.len());
                if j == k {
                    assert forall|r: int| 0 <= r < after[j].rows.len() implies #[trigger] after[j].rows[r].len() == after[j].columns.len() by {
                        if r < before[j].rows.len() {
                            assert(after[j].rows[r] == before[j].rows[r]);
                            assert(before[j].rows[r].len() == before[j].columns.len());
                        } else {
                            assert(after[j].rows[r] == cells);
                        }
                    }
                } else {
                    assert(after[j] == before[j]);
                    assert forall|r: int| 0 <= r < after[j].rows.len() implies #[trigger] after[j].rows[r].len() == after[j].columns.len() by {
                        assert(before[j].rows[r].len() == before[j].columns.len());
                    }
                }
            }
        }
        self.tables = tables;
        Ok(())
    }

    /// The named table's rows, each cut down to the columns that the
    /// statement's items name, in their order.
    fn select(&self, slct: &SelectStatement) -> (r: Result<Results<MemoryCell>, BackendError>)
        ensures
            match table_index(self@, slct@.from.value) {
                None => r == Err::<Results<MemoryCell>, BackendError>(
                    BackendError::TableDoesNotExist,
                ),
                Some(k) => match positions_of(self@[k], slct@.items) {
                    None => r == Err::<Results<MemoryCell>, BackendError>(
                        BackendError::ColumnDoesNotExist,
                    ),
                    Some(ps) => r matches Ok(res) && result_columns(res.columns@)
                        == projected_columns(self@[k], ps) && result_rows(res.rows@)
                        == projected_rows(self@[k], ps),
                },
            },
    {
        proof {
            use_type_invariant(self);
        }
        let k = match self.table_position(&slct.from.value) {
            Some(k) => k,
            None => {
                return Err(BackendError::TableDoesNotExist);
            },
        };
        let t = &self.tables[k];
        let ghost tv = self@[k as int];
        assert(tv == t.view());
        assert(tv.types.len() == tv.columns.len());
        let ghost items = slct@.items;
        let mut positions: Vec<usize> = Vec::new();
        let mut columns: Vec<Column> = Vec::new();
        let mut i: usize = 0;
        while i < slct.item.len()
            invariant
                items == slct@.items,
                items.len() == slct.item.len(),
                table_index(self@, slct@.from.value) == Some(k as int),
                k < self@.len(),
                tv == self@[k as int],
                tv == t.view(),
                tv.types.len() == tv.columns.len(),
                i <= slct.item.len(),
                positions.len() == i,
                columns.len() == i,
                forall|j: int|
                    0 <= j < i ==> (#[trigger] items[j].literal).kind == TokenKind::IdentifierKind
                        && first_index(tv.columns, items[j].literal.value) == Some(
                        positions@[j] as int,
                    ),
                forall|j: int| 0 <= j < i ==> positions@[j] < tv.columns.len(),
                forall|j: int|
                    0 <= j < i ==> (#[trigger] columns@[j]).name@ == tv.columns[positions@[j] as int]
                        && columns@[j].col_type == tv.types[positions@[j] as int],
            decreases slct.item.len() - i,
        {
            let lit = &slct.item[i].literal;
            assert(items[i as int].literal == lit@);
            if lit.kind != TokenKind::IdentifierKind {
                return Err(BackendError::ColumnDoesNotExist);
            }
            match position(&t.columns, &lit.value) {
                Some(p) => {
                    assert(strings_view(t.columns@)[p as int] == t.columns@[p as int]@);
                    positions.push(p);
                    columns.push(Column { col_type: t.column_types[p], name: t.columns[p].clone() });
                },
                None => {
                    return Err(BackendError::ColumnDoesNotExist);
                },
            }
            i = i + 1;
        }
        let ghost ps = positions_of(tv, items).unwrap();
        assert(positions@.map_values(|p: usize| p as int) =~= ps);
        assert(result_columns(columns@) =~= projected_columns(tv, ps));
        let mut rows: Vec<Vec<MemoryCell>> = Vec::new();
        let mut r: usize = 0;
        while r < t.rows.len()
            invariant
                tv == t.view(),
                tables_well_formed(self@),
                tv == self@[k as int],
                k < self@.len(),
                ps == positions@.map_values(|p: usize| p as int),
                forall|j: int| 0 <= j < positions.len() ==> positions@[j] < tv.columns.len(),
                r <= t.rows.len(),
                result_rows(rows@) =~= projected_rows(tv, ps).subrange(0, r as int),
            decreases t.rows.len() - r,
        {
            let row = &t.rows[r];
            assert(tv.rows.len() == t.rows@.len());
            assert(cells_view(row@) == tv.rows[r as int]);
            assert(self@[k as int].types.len() == self@[k as int].columns.len());
            assert(self@[k as int].rows[r as int].len() == self@[k as int].columns.len());
            let ghost want = ps.map_values(|p: int| tv.rows[r as int][p]);
            let mut out: Vec<MemoryCell> = Vec::new();
            let mut j: usize = 0;
            while j < positions.len()
                invariant
                    tv == t.view(),
                    r < tv.rows.len(),
                    cells_view(row@) == tv.rows[r as int],
                    row@.len() == tv.columns.len(),
                    ps.len() == positions.len(),
                    ps == positions@.map_values(|p: usize| p as int),
                    forall|j: int| 0 <= j < positions.len() ==> positions@[j] < tv.columns.len(),
                    j <= positions.len(),
                    cells_view(out@) =~= ps.map_values(|p: int| tv.rows[r as int][p]).subrange(
                        0,
                        j as int,
                    ),
                decreases positions.len() - j,
            {
                let c = row[positions[j]].clone();
                proof {
                    assert(c@ == tv.rows[r as int][ps[j as int]]);
                    assert(cells_view(out@.push(c)) =~= cells_view(out@).push(c@));
                }
                out.push(c);
                j = j + 1;
            }
            proof {
                assert(cells_view(out@) =~= want);
                assert(projected_rows(tv, ps)[r as int] == want);
                assert(rows_view(rows@.push(out)) =~= rows_view(rows@).push(cells_view(out@)));
            }
            rows.push(out);
            r = r + 1;
        }
        Ok(Results { columns, rows })
    }
}

} // verus!
