//! The text form of tables: CSV, or whitespace-separated text with a line
//! of dashes under the header. Three header lines give the column names,
//! their types (`Integer`, `Float`, `Text`) and their key markers
//! (`prim_key`, `nt_prim_key`); each further line is a row.
use crate::column::{cell_literal, Column, ColumnDataType, Datum, Value};
use crate::table::{columns_consistent, Table};
use crate::table_insert::{parse_row, with_row};
use crate::table_errors::{string_views, Error, ErrorView};
use vstd::prelude::*;

verus! {

pub open spec fn digit_char(d: int) -> char {
    if d == 0 {
        '0'
    } else if d == 1 {
        '1'
    } else if d == 2 {
        '2'
    } else if d == 3 {
        '3'
    } else if d == 4 {
        '4'
    } else if d == 5 {
        '5'
    } else if d == 6 {
        '6'
    } else if d == 7 {
        '7'
    } else if d == 8 {
        '8'
    } else {
        '9'
    }
}

/// The decimal digits of `n`.
pub open spec fn nat_text(n: nat) -> Seq<char>
    decreases n,
{
    if n < 10 {
        seq![digit_char(n as int)]
    } else {
        nat_text(n / 10).push(digit_char((n % 10) as int))
    }
}

pub open spec fn int_text(i: int) -> Seq<char> {
    if i < 0 {
        seq!['-'] + nat_text((-i) as nat)
    } else {
        nat_text(i as nat)
    }
}

/// A decimal held in 10^-9 units, shown with two places, rounded half away
/// from zero.
pub open spec fn decimal_text(nanos: int) -> Seq<char> {
    let m = if nanos < 0 {
        -nanos
    } else {
        nanos
    };
    let h = (m + 5_000_000) / 10_000_000;
    let sign = if nanos < 0 && h != 0 {
        seq!['-']
    } else {
        Seq::<char>::empty()
    };
    sign + nat_text((h / 100) as nat) + seq!['.', digit_char((h % 100) / 10), digit_char(h % 10)]
}

/// How a cell is written: numbers in decimal, text as it is, null as `NULL`.
pub open spec fn cell_text_spec(v: Datum) -> Seq<char> {
    match v {
        Datum::Integer(i) => int_text(i as int),
        Datum::Float(x) => decimal_text(x as int),
        Datum::Text(s) => s,
        Datum::Null => seq!['N', 'U', 'L', 'L'],
    }
}

fn digit_str(d: u128) -> (r: &'static str)
    requires
        d < 10,
    ensures
        r@ == seq![digit_char(d as int)],
{
    let r = if d == 0 {
        "0"
    } else if d == 1 {
        "1"
    } else if d == 2 {
        "2"
    } else if d == 3 {
        "3"
    } else if d == 4 {
        "4"
    } else if d == 5 {
        "5"
    } else if d == 6 {
        "6"
    } else if d == 7 {
        "7"
    } else if d == 8 {
        "8"
    } else {
        "9"
    };
    proof {
        reveal_strlit("0");
        reveal_strlit("1");
        reveal_strlit("2");
        reveal_strlit("3");
        reveal_strlit("4");
        reveal_strlit("5");
        reveal_strlit("6");
        reveal_strlit("7");
        reveal_strlit("8");
        reveal_strlit("9");
    }
    assert(r@ =~= seq![digit_char(d as int)]);
    r
}

/// The decimal digits of `n`.
pub fn nat_string(n: u128) -> (r: String)
    ensures
        r@ == nat_text(n as nat),
    decreases n,
{
    if n < 10 {
        let mut s = String::new();
        s.append(digit_str(n));
        assert(s@ =~= nat_text(n as nat));
        s
    } else {
        let mut s = nat_string(n / 10);
        s.append(digit_str(n % 10));
        assert(s@ =~= nat_text(n as nat));
        s
    }
}

/// How a cell is written.
pub fn cell_text(v: &Value) -> (r: String)
    ensures
        r@ == cell_text_spec(v@),
{
    match v {
        Value::Integer(i) => {
            if *i < 0 {
                let mut s = String::new();
                s.append("-");
                let m = (-(*i as i128)) as u128;
                let t = nat_string(m);
                s.append(t.as_str());
                proof {
                    reveal_strlit("-");
                }
                assert(s@ =~= int_text(*i as int));
                s
            } else {
                nat_string(*i as u128)
            }
        },
        Value::Float(d) => {
            let m: u128 = if d.nanos < 0 {
                ((-(d.nanos + 1)) as u128) + 1
            } else {
                d.nanos as u128
            };
            let h: u128 = (m / 2 + 2_500_000) / 5_000_000;
            assert(h == (m + 5_000_000) / 10_000_000) by (nonlinear_arith)
                requires h == (m / 2 + 2_500_000) / 5_000_000, m >= 0;
            let mut s = String::new();
            if d.nanos < 0 && h != 0 {
                s.append("-");
            }
            let whole = nat_string(h / 100);
            s.append(whole.as_str());
            s.append(".");
            s.append(digit_str((h % 100) / 10));
            s.append(digit_str(h % 10));
            proof {
                reveal_strlit("-");
                reveal_strlit(".");
            }
            assert(s@ =~= decimal_text(d.nanos as int));
            s
        },
        Value::Text(t) => t.clone(),
        Value::Null => {
            let s = "NULL".to_string();
            proof {
                reveal_strlit("NULL");
            }
            assert(s@ =~= seq!['N', 'U', 'L', 'L']);
            s
        },
    }
}

/// The field separator: a comma for CSV, a space for text.
pub open spec fn separator(csv: bool) -> char {
    if csv {
        ','
    } else {
        ' '
    }
}

/// `parts` joined by `sep`.
pub open spec fn join(parts: Seq<Seq<char>>, sep: char) -> Seq<char>
    decreases parts.len(),
{
    if parts.len() == 0 {
        Seq::empty()
    } else if parts.len() == 1 {
        parts[0]
    } else {
        join(parts.drop_last(), sep).push(sep) + parts.last()
    }
}

pub open spec fn type_token(t: ColumnDataType) -> Seq<char> {
    match t {
        ColumnDataType::Integer => seq!['I', 'n', 't', 'e', 'g', 'e', 'r'],
        ColumnDataType::Float => seq!['F', 'l', 'o', 'a', 't'],
        ColumnDataType::Text => seq!['T', 'e', 'x', 't'],
    }
}

pub open spec fn key_token(is_key: bool) -> Seq<char> {
    if is_key {
        seq!['p', 'r', 'i', 'm', '_', 'k', 'e', 'y']
    } else {
        seq!['n', 't', '_', 'p', 'r', 'i', 'm', '_', 'k', 'e', 'y']
    }
}

/// The lines that describe the columns: names, types and key markers, and
/// for text a line of dashes as long as the names line.
pub open spec fn header_text(cols: Seq<Column>, csv: bool) -> Seq<Seq<char>> {
    let sep = separator(csv);
    let names = join(Seq::new(cols.len(), |j: int| cols[j].name@), sep);
    let lines = seq![
        names,
        join(Seq::new(cols.len(), |j: int| type_token(cols[j].data_type)), sep),
        join(Seq::new(cols.len(), |j: int| key_token(cols[j].is_primary_key)), sep),
    ];
    if csv {
        lines
    } else {
        lines.push(Seq::new(names.len(), |i: int| '-'))
    }
}

/// Row `r` of the columns, its cells joined by the separator.
pub open spec fn row_text(cols: Seq<Column>, r: int, csv: bool) -> Seq<char> {
    join(Seq::new(cols.len(), |j: int| cell_text_spec(cols[j].values()[r])), separator(csv))
}

/// A table written out line by line.
pub open spec fn export_text(t: Table, csv: bool) -> Seq<Seq<char>> {
    header_text(t.columns@, csv) + Seq::new(t.row_count(), |r: int| row_text(t.columns@, r, csv))
}

fn separator_str(csv: bool) -> (r: &'static str)
    ensures
        r@ == seq![separator(csv)],
{
    proof {
        reveal_strlit(",");
        reveal_strlit(" ");
    }
    if csv {
        ","
    } else {
        " "
    }
}

/// `parts` joined by the separator.
pub fn join_fields(parts: &Vec<String>, csv: bool) -> (r: String)
    ensures
        r@ == join(string_views(parts@), separator(csv)),
{
    let mut s = String::new();
    let mut i: usize = 0;
    let ghost v = string_views(parts@);
    assert(v.take(0) =~= Seq::<Seq<char>>::empty());
    while i < parts.len()
        invariant
            i <= parts@.len(),
            v == string_views(parts@),
            s@ == join(v.take(i as int), separator(csv)),
        decreases parts@.len() - i,
    {
        let ghost before = s@;
        assert(v.take(i + 1).drop_last() =~= v.take(i as int));
        if i > 0 {
            s.append(separator_str(csv));
        }
        s.append(parts[i].as_str());
        if i == 0 {
            assert(s@ =~= join(v.take(i + 1), separator(csv)));
        } else {
            assert(s@ =~= join(v.take(i + 1), separator(csv)));
        }
        i = i + 1;
    }
    assert(v.take(i as int) =~= v);
    s
}

fn type_string(t: ColumnDataType) -> (r: String)
    ensures
        r@ == type_token(t),
{
    proof {
        reveal_strlit("Integer");
        reveal_strlit("Float");
        reveal_strlit("Text");
    }
    let r = match t {
        ColumnDataType::Integer => "Integer".to_string(),
        ColumnDataType::Float => "Float".to_string(),
        ColumnDataType::Text => "Text".to_string(),
    };
    assert(r@ =~= type_token(t));
    r
}

fn key_string(is_key: bool) -> (r: String)
    ensures
        r@ == key_token(is_key),
{
    proof {
        reveal_strlit("prim_key");
        reveal_strlit("nt_prim_key");
    }
    let r = if is_key {
        "prim_key".to_string()
    } else {
        "nt_prim_key".to_string()
    };
    assert(r@ =~= key_token(is_key));
    r
}

/// Writes a table as lines of CSV (`csv`) or of whitespace-separated text.
pub fn export_lines(t: &Table, csv: bool) -> (r: Vec<String>)
    requires
        t.wf(),
    ensures
        string_views(r@) == export_text(*t, csv),
{
    let cols = &t.columns;
    let n = cols.len();
    let mut names: Vec<String> = Vec::new();
    let mut types: Vec<String> = Vec::new();
    let mut keys: Vec<String> = Vec::new();
    let mut j: usize = 0;
    while j < n
        invariant
            n == cols@.len(),
            j <= n,
            string_views(names@) =~= Seq::new(j as nat, |q: int| cols@[q].name@),
            string_views(types@) =~= Seq::new(j as nat, |q: int| type_token(cols@[q].data_type)),
            string_views(keys@) =~= Seq::new(j as nat, |q: int| key_token(cols@[q].is_primary_key)),
        decreases n - j,
    {
        let ghost (n0, t0, k0) = (names@, types@, keys@);
        let nm = cols[j].name.clone();
        let ty = type_string(cols[j].data_type);
        let ky = key_string(cols[j].is_primary_key);
        names.push(nm);
        types.push(ty);
        keys.push(ky);
        assert(string_views(names@) =~= string_views(n0).push(nm@));
        assert(string_views(types@) =~= string_views(t0).push(ty@));
        assert(string_views(keys@) =~= string_views(k0).push(ky@));
        j = j + 1;
    }
    let mut lines: Vec<String> = Vec::new();
    let head = join_fields(&names, csv);
    let head_len = head.as_str().unicode_len();
    let tl = join_fields(&types, csv);
    let kl = join_fields(&keys, csv);
    let ghost (hv, tv, kv) = (head@, tl@, kl@);
    lines.push(head);
    lines.push(tl);
    lines.push(kl);
    assert(string_views(lines@) =~= seq![hv, tv, kv]);
    if !csv {
        let mut dashes = String::new();
        let mut d: usize = 0;
        while d < head_len
            invariant
                d <= head_len,
                dashes@ =~= Seq::new(d as nat, |i: int| '-'),
            decreases head_len - d,
        {
            proof {
                reveal_strlit("-");
            }
            dashes.append("-");
            d = d + 1;
        }
        let ghost l0 = lines@;
        let ghost dv = dashes@;
        lines.push(dashes);
        assert(string_views(lines@) =~= string_views(l0).push(dv));
    }
    assert(string_views(lines@) =~= header_text(cols@, csv));
    let rows: usize = if n == 0 {
        0
    } else {
        cols[0].data.len()
    };
    let mut r: usize = 0;
    while r < rows
        invariant
            t.wf(),
            n == cols@.len(),
            cols == &t.columns,
            rows == t.row_count(),
            r <= rows,
            string_views(lines@) =~= header_text(cols@, csv) + Seq::new(
                r as nat,
                |q: int| row_text(cols@, q, csv),
            ),
        decreases rows - r,
    {
        let mut cells: Vec<String> = Vec::new();
        let mut j: usize = 0;
        while j < n
            invariant
                t.wf(),
                n == cols@.len(),
                cols == &t.columns,
                rows == t.row_count(),
                r < rows,
                j <= n,
                string_views(cells@) =~= Seq::new(j as nat, |q: int| cell_text_spec(cols@[q].values()[r as int])),
            decreases n - j,
        {
            assert(cols@[j as int].data@.len() == rows);
            let ghost c0 = cells@;
            let ct = cell_text(&cols[j].data[r]);
            cells.push(ct);
            assert(cols@[j as int].values()[r as int] == cols@[j as int].data@[r as int]@);
            assert(string_views(cells@) =~= string_views(c0).push(ct@));
            j = j + 1;
        }
        let ghost l0 = lines@;
        let line = join_fields(&cells, csv);
        lines.push(line);
        assert(string_views(lines@) =~= string_views(l0).push(line@));
        assert(line@ == row_text(cols@, r as int, csv));
        r = r + 1;
    }
    lines
}

pub open spec fn is_separator(c: char, csv: bool) -> bool {
    if csv {
        c == ','
    } else {
        c == ' ' || c == '\t'
    }
}

/// The fields closed so far and the one being read, after reading `s`.
pub open spec fn scan(s: Seq<char>, csv: bool) -> (Seq<Seq<char>>, Seq<char>)
    decreases s.len(),
{
    if s.len() == 0 {
        (Seq::empty(), Seq::empty())
    } else {
        let (f, cur) = scan(s.drop_last(), csv);
        let c = s.last();
        if is_separator(c, csv) {
            if csv || cur.len() > 0 {
                (f.push(cur), Seq::empty())
            } else {
                (f, Seq::empty())
            }
        } else {
            (f, cur.push(c))
        }
    }
}

/// The fields of a line: for CSV the parts between commas; for text the
/// runs of characters other than spaces and tabs.
pub open spec fn fields(s: Seq<char>, csv: bool) -> Seq<Seq<char>> {
    let (f, cur) = scan(s, csv);
    if csv || cur.len() > 0 {
        f.push(cur)
    } else {
        f
    }
}

pub open spec fn token_type(s: Seq<char>) -> Option<ColumnDataType> {
    if s == type_token(ColumnDataType::Integer) {
        Some(ColumnDataType::Integer)
    } else if s == type_token(ColumnDataType::Float) {
        Some(ColumnDataType::Float)
    } else if s == type_token(ColumnDataType::Text) {
        Some(ColumnDataType::Text)
    } else {
        None
    }
}

pub open spec fn token_key(s: Seq<char>) -> Option<bool> {
    if s == key_token(true) {
        Some(true)
    } else if s == key_token(false) {
        Some(false)
    } else {
        None
    }
}

/// The line where the rows begin.
pub open spec fn data_start(csv: bool) -> int {
    if csv {
        3
    } else {
        4
    }
}

/// The number of columns that the header lines describe, or why they are
/// refused.
pub open spec fn header_outcome(lines: Seq<Seq<char>>, csv: bool) -> Result<nat, ErrorView> {
    if lines.len() == 0 {
        Err(ErrorView::InvalidFormat("File is empty"@))
    } else if lines.len() == 1 {
        Err(ErrorView::InvalidFormat("File is missing data types"@))
    } else if exists|i: int|
        0 <= i < fields(lines[1], csv).len() && token_type(#[trigger] fields(lines[1], csv)[i]) is None {
        Err(ErrorView::InvalidFormat("Invalid data type"@))
    } else if lines.len() == 2 {
        Err(ErrorView::InvalidFormat("File is missing primary key information"@))
    } else if exists|i: int|
        0 <= i < fields(lines[2], csv).len() && token_key(#[trigger] fields(lines[2], csv)[i]) is None {
        Err(ErrorView::InvalidFormat("Invalid primary key information"@))
    } else {
        let a = fields(lines[0], csv).len();
        let b = fields(lines[1], csv).len();
        let c = fields(lines[2], csv).len();
        let n = if a <= b && a <= c { a } else if b <= c { b } else { c };
        if exists|i: int, j: int|
            0 <= i < j < n && #[trigger] fields(lines[0], csv)[i] == #[trigger] fields(lines[0], csv)[j] {
            Err(ErrorView::InvalidFormat("Duplicate column name"@))
        } else {
            Ok(n)
        }
    }
}

/// Splits a line into its fields.
pub fn split_fields(line: &str, csv: bool) -> (r: Vec<String>)
    ensures
        string_views(r@) == fields(line@, csv),
{
    let len = line.unicode_len();
    let mut done: Vec<String> = Vec::new();
    let mut cur = String::new();
    let mut i: usize = 0;
    assert(line@.take(0) =~= Seq::<char>::empty());
    assert(string_views(done@) =~= Seq::<Seq<char>>::empty());
    while i < len
        invariant
            i <= len == line@.len(),
            (string_views(done@), cur@) == scan(line@.take(i as int), csv),
        decreases len - i,
    {
        let c = line.get_char(i);
        assert(line@.take(i + 1).drop_last() =~= line@.take(i as int));
        assert(line@.take(i + 1).last() == c);
        let is_sep = if csv {
            c == ','
        } else {
            c == ' ' || c == '\t'
        };
        if is_sep {
            if csv || cur.as_str().unicode_len() > 0 {
                let ghost d0 = done@;
                let ghost cv = cur@;
                done.push(cur);
                assert(string_views(done@) =~= string_views(d0).push(cv));
            }
            cur = String::new();
        } else {
            cur.append(line.substring_char(i, i + 1));
            assert(line@.subrange(i as int, i + 1) =~= seq![c]);
        }
        i = i + 1;
    }
    assert(line@.take(len as int) =~= line@);
    if csv || cur.as_str().unicode_len() > 0 {
        let ghost d0 = done@;
        let ghost cv = cur@;
        done.push(cur);
        assert(string_views(done@) =~= string_views(d0).push(cv));
    }
    done
}

fn column_type_of(tok: &String) -> (r: Option<ColumnDataType>)
    ensures
        r == token_type(tok@),
{
    if *tok == type_string(ColumnDataType::Integer) {
        Some(ColumnDataType::Integer)
    } else if *tok == type_string(ColumnDataType::Float) {
        Some(ColumnDataType::Float)
    } else if *tok == type_string(ColumnDataType::Text) {
        Some(ColumnDataType::Text)
    } else {
        None
    }
}

fn key_marker_of(tok: &String) -> (r: Option<bool>)
    ensures
        r == token_key(tok@),
{
    if *tok == key_string(true) {
        Some(true)
    } else if *tok == key_string(false) {
        Some(false)
    } else {
        None
    }
}

/// Reading a row depends on the columns' types alone.
proof fn lemma_parse_row_types(a: Seq<Column>, b: Seq<Column>, data: Seq<Seq<char>>, n: nat)
    requires
        forall|i: int| 0 <= i < n ==> #[trigger] a[i].data_type == b[i].data_type,
    ensures
        parse_row(a, data, n) == parse_row(b, data, n),
    decreases n,
{
    if n > 0 {
        lemma_parse_row_types(a, b, data, (n - 1) as nat);
        assert(a[n - 1].data_type == b[n - 1].data_type);
    }
}

/// The column types that the header lines give to the first `n` columns.
pub open spec fn header_types(v: Seq<Seq<char>>, csv: bool, n: nat) -> Seq<ColumnDataType> {
    Seq::new(n, |j: int| token_type(fields(v[1], csv)[j])->Some_0)
}

/// The key markers that the header lines give to the first `n` columns.
pub open spec fn header_keys(v: Seq<Seq<char>>, csv: bool, n: nat) -> Seq<bool> {
    Seq::new(n, |j: int| token_key(fields(v[2], csv)[j])->Some_0)
}

/// More than one column is marked as the key.
pub open spec fn several_marked(keys: Seq<bool>) -> bool {
    exists|p: int, q: int| 0 <= p < q < keys.len() && keys[p] && keys[q]
}

/// The position of the column marked as the key, if one is.
pub open spec fn marked_key(keys: Seq<bool>) -> Option<int> {
    if exists|p: int| 0 <= p < keys.len() && keys[p] {
        Some(choose|p: int| 0 <= p < keys.len() && keys[p])
    } else {
        None
    }
}

/// The first `n` literals of a row read as the given types; the first that
/// does not read gives `ParseError` at its position.
pub open spec fn read_cells(types: Seq<ColumnDataType>, d: Seq<Seq<char>>, n: nat) -> Result<
    Seq<Datum>,
    ErrorView,
>
    decreases n,
{
    if n == 0 {
        Ok(Seq::empty())
    } else {
        match read_cells(types, d, (n - 1) as nat) {
            Err(e) => Err(e),
            Ok(p) => match cell_literal(types[n - 1], d[n - 1]) {
                None => Err(ErrorView::ParseError((n - 1) as usize, d[n - 1])),
                Some(x) => Ok(p.push(x)),
            },
        }
    }
}

/// Adding the row whose fields are `d` to the cells `cells`, as `insert`
/// does: the count must match, each literal must read, and the key must be
/// present and new.
pub open spec fn row_step(
    types: Seq<ColumnDataType>,
    keys: Seq<bool>,
    cells: Seq<Seq<Datum>>,
    d: Seq<Seq<char>>,
) -> Result<Seq<Seq<Datum>>, ErrorView> {
    if d.len() != types.len() {
        Err(ErrorView::MismatchedColumnCount)
    } else {
        match read_cells(types, d, d.len()) {
            Err(e) => Err(e),
            Ok(row) => match marked_key(keys) {
                Some(p) => if row[p] == Datum::Null {
                    Err(ErrorView::NullPrimaryKey)
                } else if cells[p].contains(row[p]) {
                    Err(ErrorView::DuplicatePrimaryKey)
                } else {
                    Ok(with_row(cells, row))
                },
                None => Ok(with_row(cells, row)),
            },
        }
    }
}

/// The cells after the first `k` data lines, or the first line's error.
pub open spec fn import_rows(
    types: Seq<ColumnDataType>,
    keys: Seq<bool>,
    v: Seq<Seq<char>>,
    csv: bool,
    k: nat,
) -> Result<Seq<Seq<Datum>>, ErrorView>
    decreases k,
{
    if k == 0 {
        Ok(Seq::new(types.len(), |j: int| Seq::<Datum>::empty()))
    } else {
        match import_rows(types, keys, v, csv, (k - 1) as nat) {
            Err(e) => Err(e),
            Ok(cells) => row_step(types, keys, cells, fields(v[data_start(csv) + k - 1], csv)),
        }
    }
}

/// The number of data lines.
pub open spec fn data_lines(v: Seq<Seq<char>>, csv: bool) -> nat {
    if v.len() > data_start(csv) {
        (v.len() - data_start(csv)) as nat
    } else {
        0
    }
}

proof fn lemma_import_rows_err(
    types: Seq<ColumnDataType>,
    keys: Seq<bool>,
    v: Seq<Seq<char>>,
    csv: bool,
    k: nat,
    m: nat,
)
    requires
        k <= m,
        import_rows(types, keys, v, csv, k) is Err,
    ensures
        import_rows(types, keys, v, csv, m) == import_rows(types, keys, v, csv, k),
    decreases m - k,
{
    if m > k {
        lemma_import_rows_err(types, keys, v, csv, k, (m - 1) as nat);
    }
}

proof fn lemma_read_cells(cols: Seq<Column>, types: Seq<ColumnDataType>, d: Seq<Seq<char>>, n: nat)
    requires
        n <= cols.len(),
        n <= types.len(),
        forall|i: int| 0 <= i < n ==> #[trigger] cols[i].data_type == types[i],
    ensures
        parse_row(cols, d, n) == read_cells(types, d, n),
    decreases n,
{
    if n > 0 {
        lemma_read_cells(cols, types, d, (n - 1) as nat);
        assert(cols[n - 1].data_type == types[n - 1]);
    }
}

proof fn lemma_marked_key(keys: Seq<bool>, k: int)
    requires
        0 <= k < keys.len(),
        keys[k],
        !several_marked(keys),
    ensures
        marked_key(keys) == Some(k),
{
    let p = choose|p: int| 0 <= p < keys.len() && keys[p];
    if p < k {
        assert(several_marked(keys));
    } else if p > k {
        assert(several_marked(keys));
    }
}

/// The cells that the data lines give once the header reads as `n`
/// columns, or the error: `MultiplePrimaryKeys` first, then the first line
/// that `insert` would refuse.
pub open spec fn table_outcome(v: Seq<Seq<char>>, csv: bool, n: nat) -> Result<Seq<Seq<Datum>>, ErrorView> {
    if several_marked(header_keys(v, csv, n)) {
        Err(ErrorView::MultiplePrimaryKeys)
    } else {
        import_rows(header_types(v, csv, n), header_keys(v, csv, n), v, csv, data_lines(v, csv))
    }
}

/// `t` is the table named `name` that the lines `v` describe, with `n`
/// columns and the cells `cells`.
pub open spec fn imported(t: Table, name: Seq<char>, v: Seq<Seq<char>>, csv: bool, n: nat, cells: Seq<Seq<Datum>>) -> bool {
    &&& t.wf()
    &&& t.name@ == name
    &&& t.referenced_as_foreign_key@.len() == 0
    &&& t.columns@.len() == n
    &&& forall|j: int|
        0 <= j < n ==> {
            &&& (#[trigger] t.columns@[j]).name@ == fields(v[0], csv)[j]
            &&& t.columns@[j].data_type == header_types(v, csv, n)[j]
            &&& t.columns@[j].is_primary_key == header_keys(v, csv, n)[j]
            &&& t.columns@[j].foreign_key is None
        }
    &&& t.cells() == cells
}

/// Reads a table from its lines: CSV when `csv`, else whitespace-separated
/// text with a line of dashes under the header. The header lines give the
/// columns (as many as the shortest of them has fields); the table fails
/// with `MultiplePrimaryKeys` when more than one is marked as the key; each
/// further line is then added as `insert` adds a row, and the first line
/// that `insert` refuses gives its error.
pub fn parse_table(name: &str, lines: &Vec<String>, csv: bool) -> (r: Result<Table, Error>)
    ensures
        match header_outcome(string_views(lines@), csv) {
            Err(e) => r is Err && r->Err_0@ == e,
            Ok(n) => match table_outcome(string_views(lines@), csv, n) {
                Err(e) => r is Err && r->Err_0@ == e,
                Ok(cells) => r is Ok && imported(r->Ok_0, name@, string_views(lines@), csv, n, cells),
            },
        },
{
    let ghost v = string_views(lines@);
    if lines.len() == 0 {
        return Err(Error::InvalidFormat("File is empty".to_string()));
    }
    if lines.len() == 1 {
        return Err(Error::InvalidFormat("File is missing data types".to_string()));
    }
    let names = split_fields(lines[0].as_str(), csv);
    let type_toks = split_fields(lines[1].as_str(), csv);
    assert(v[0] == lines@[0]@ && v[1] == lines@[1]@);
    let mut types: Vec<ColumnDataType> = Vec::new();
    let mut i: usize = 0;
    while i < type_toks.len()
        invariant
            i <= type_toks@.len(),
            types@.len() == i,
            v == string_views(lines@),
            lines@.len() >= 2,
            string_views(names@) == fields(v[0], csv),
            string_views(type_toks@) == fields(v[1], csv),
            forall|q: int| 0 <= q < i ==> Some(#[trigger] types@[q]) == token_type(type_toks@[q]@),
        decreases type_toks@.len() - i,
    {
        match column_type_of(&type_toks[i]) {
            Some(t) => types.push(t),
            None => {
                assert(string_views(type_toks@)[i as int] == type_toks@[i as int]@);
                assert(token_type(fields(v[1], csv)[i as int]) is None);
                return Err(Error::InvalidFormat("Invalid data type".to_string()));
            },
        }
        i = i + 1;
    }
    assert forall|q: int| 0 <= q < fields(v[1], csv).len() implies token_type(#[trigger] fields(v[1], csv)[q]) is Some by {
        assert(string_views(type_toks@)[q] == type_toks@[q]@);
        assert(Some(types@[q]) == token_type(type_toks@[q]@));
    }
    if lines.len() == 2 {
        return Err(Error::InvalidFormat("File is missing primary key information".to_string()));
    }
    let key_toks = split_fields(lines[2].as_str(), csv);
    assert(v[2] == lines@[2]@);
    let mut keys: Vec<bool> = Vec::new();
    let mut i: usize = 0;
    while i < key_toks.len()
        invariant
            i <= key_toks@.len(),
            keys@.len() == i,
            v == string_views(lines@),
            lines@.len() >= 3,
            string_views(names@) == fields(v[0], csv),
            string_views(type_toks@) == fields(v[1], csv),
            string_views(key_toks@) == fields(v[2], csv),
            types@.len() == type_toks@.len(),
            forall|q: int| 0 <= q < types@.len() ==> Some(#[trigger] types@[q]) == token_type(type_toks@[q]@),
            forall|q: int| 0 <= q < fields(v[1], csv).len() ==> token_type(#[trigger] fields(v[1], csv)[q]) is Some,
            forall|q: int| 0 <= q < i ==> Some(#[trigger] keys@[q]) == token_key(key_toks@[q]@),
        decreases key_toks@.len() - i,
    {
        match key_marker_of(&key_toks[i]) {
            Some(k) => keys.push(k),
            None => {
                assert(string_views(key_toks@)[i as int] == key_toks@[i as int]@);
                assert(token_key(fields(v[2], csv)[i as int]) is None);
                return Err(Error::InvalidFormat("Invalid primary key information".to_string()));
            },
        }
        i = i + 1;
    }
    assert forall|q: int| 0 <= q < fields(v[2], csv).len() implies token_key(#[trigger] fields(v[2], csv)[q]) is Some by {
        assert(string_views(key_toks@)[q] == key_toks@[q]@);
        assert(Some(keys@[q]) == token_key(key_toks@[q]@));
    }
    let mut n = names.len();
    assert(!exists|q: int| 0 <= q < fields(v[1], csv).len() && token_type(#[trigger] fields(v[1], csv)[q]) is None);
    assert(!exists|q: int| 0 <= q < fields(v[2], csv).len() && token_key(#[trigger] fields(v[2], csv)[q]) is None);
    if types.len() < n {
        n = types.len();
    }
    if keys.len() < n {
        n = keys.len();
    }
    assert(n == ({
        let a = fields(v[0], csv).len();
        let b = fields(v[1], csv).len();
        let c = fields(v[2], csv).len();
        if a <= b && a <= c { a } else if b <= c { b } else { c }
    }));
    let mut p: usize = 0;
    while p < n
        invariant
            n <= names@.len(),
            p <= n,
            v == string_views(lines@),
            lines@.len() >= 3,
            string_views(names@) == fields(v[0], csv),
            forall|q: int| 0 <= q < fields(v[1], csv).len() ==> token_type(#[trigger] fields(v[1], csv)[q]) is Some,
            forall|q: int| 0 <= q < fields(v[2], csv).len() ==> token_key(#[trigger] fields(v[2], csv)[q]) is Some,
            n == ({
                let a = fields(v[0], csv).len();
                let b = fields(v[1], csv).len();
                let c = fields(v[2], csv).len();
                if a <= b && a <= c { a } else if b <= c { b } else { c }
            }),
            forall|i: int, j: int| 0 <= i < j < n && i < p ==> names@[i]@ != names@[j]@,
        decreases n - p,
    {
        let mut q: usize = p + 1;
        while q < n
            invariant
                n <= names@.len(),
                p < n,
                v == string_views(lines@),
                lines@.len() >= 3,
                string_views(names@) == fields(v[0], csv),
                forall|q: int| 0 <= q < fields(v[1], csv).len() ==> token_type(#[trigger] fields(v[1], csv)[q]) is Some,
                forall|q: int| 0 <= q < fields(v[2], csv).len() ==> token_key(#[trigger] fields(v[2], csv)[q]) is Some,
                n == ({
                    let a = fields(v[0], csv).len();
                    let b = fields(v[1], csv).len();
                    let c = fields(v[2], csv).len();
                    if a <= b && a <= c { a } else if b <= c { b } else { c }
                }),
                p + 1 <= q <= n,
                forall|i: int, j: int| 0 <= i < j < n && i < p ==> names@[i]@ != names@[j]@,
                forall|j: int| p < j < q ==> names@[p as int]@ != names@[j]@,
            decreases n - q,
        {
            if names[p] == names[q] {
                proof {
                    assert(string_views(names@)[p as int] == names@[p as int]@);
                    assert(string_views(names@)[q as int] == names@[q as int]@);
                    assert(fields(v[0], csv)[p as int] == fields(v[0], csv)[q as int]);
                }
                return Err(Error::InvalidFormat("Duplicate column name".to_string()));
            }
            q = q + 1;
        }
        p = p + 1;
    }
    assert(!exists|i: int, j: int|
        0 <= i < j < n && #[trigger] fields(v[0], csv)[i] == #[trigger] fields(v[0], csv)[j]) by {
        assert forall|i: int, j: int| 0 <= i < j < n implies fields(v[0], csv)[i] != fields(v[0], csv)[j] by {
            assert(string_views(names@)[i] == names@[i]@);
            assert(string_views(names@)[j] == names@[j]@);
        }
    }
    assert(header_outcome(v, csv) == Ok::<nat, ErrorView>(n as nat));
    let ghost ht = header_types(v, csv, n as nat);
    let ghost hk = header_keys(v, csv, n as nat);
    assert forall|q: int| 0 <= q < n implies #[trigger] ht[q] == types@[q] && hk[q] == keys@[q] by {
        assert(string_views(type_toks@)[q] == type_toks@[q]@);
        assert(string_views(key_toks@)[q] == key_toks@[q]@);
        assert(Some(types@[q]) == token_type(type_toks@[q]@));
        assert(Some(keys@[q]) == token_key(key_toks@[q]@));
    }
    let mut columns: Vec<Column> = Vec::new();
    let mut j: usize = 0;
    while j < n
        invariant
            n <= names@.len(),
            n <= types@.len(),
            n <= keys@.len(),
            j <= n,
            columns@.len() == j,
            forall|q: int| 0 <= q < j ==> {
                &&& (#[trigger] columns@[q]).name@ == names@[q]@
                &&& columns@[q].data_type == types@[q]
                &&& columns@[q].is_primary_key == keys@[q]
                &&& columns@[q].foreign_key is None
                &&& columns@[q].data@.len() == 0
            },
        decreases n - j,
    {
        let c = Column::new(names[j].as_str(), types[j], None, keys[j], None);
        assert(c.values().len() == c.data@.len());
        columns.push(c);
        j = j + 1;
    }
    assert forall|q: int| 0 <= q < n implies (#[trigger] columns@[q]).name@ == fields(v[0], csv)[q] by {
        assert(string_views(names@)[q] == names@[q]@);
    }
    assert forall|a: int, b: int| 0 <= a < n && 0 <= b < n && a != b implies #[trigger] columns@[a].name@
        != #[trigger] columns@[b].name@ by {
        if a < b {
            assert(fields(v[0], csv)[a] != fields(v[0], csv)[b]);
        } else {
            assert(fields(v[0], csv)[b] != fields(v[0], csv)[a]);
        }
    }
    assert(columns_consistent(columns@));
    let ghost cols0 = columns@;
    proof {
        if several_marked(hk) {
            let (p, q) = choose|p: int, q: int| 0 <= p < q < hk.len() && hk[p] && hk[q];
            assert(cols0[p].is_primary_key && cols0[q].is_primary_key);
        }
    }
    let mut table = match Table::new(name, columns) {
        Ok(t) => t,
        Err(e) => {
            proof {
                let (p, q) = choose|p: int, q: int|
                    0 <= p < q < cols0.len() && cols0[p].is_primary_key && cols0[q].is_primary_key;
                assert(hk[p] && hk[q]);
            }
            return Err(e);
        },
    };
    proof {
        match table.primary_key {
            Some(k) => {
                assert(hk[k as int]);
                lemma_marked_key(hk, k as int);
            },
            None => {
                assert(!exists|p: int| 0 <= p < hk.len() && hk[p]) by {
                    if exists|p: int| 0 <= p < hk.len() && hk[p] {
                        let p = choose|p: int| 0 <= p < hk.len() && hk[p];
                        assert(cols0[p].is_primary_key);
                    }
                }
            },
        }
        assert(table.cells() =~= Seq::new(ht.len(), |q: int| Seq::<Datum>::empty())) by {
            assert forall|q: int| 0 <= q < n implies #[trigger] table.cells()[q] == Seq::<Datum>::empty() by {
                assert(table.columns@[q].values().len() == table.columns@[q].data@.len());
            }
        }
    }
    let start: usize = if csv {
        3
    } else {
        4
    };
    let mut k: usize = start;
    while k < lines.len()
        invariant
            table.wf(),
            table.name@ == name@,
            table.referenced_as_foreign_key@.len() == 0,
            table.columns@.len() == n,
            v == string_views(lines@),
            start == data_start(csv),
            header_outcome(v, csv) == Ok::<nat, ErrorView>(n as nat),
            ht == header_types(v, csv, n as nat),
            hk == header_keys(v, csv, n as nat),
            !several_marked(hk),
            start <= k,
            k <= lines@.len() || k == start,
            match table.primary_key {
                Some(p) => marked_key(hk) == Some(p as int),
                None => marked_key(hk) is None,
            },
            forall|q: int| 0 <= q < n ==> {
                &&& (#[trigger] table.columns@[q]).name@ == fields(v[0], csv)[q]
                &&& table.columns@[q].data_type == ht[q]
                &&& table.columns@[q].is_primary_key == hk[q]
                &&& table.columns@[q].foreign_key is None
            },
            import_rows(ht, hk, v, csv, (k - start) as nat) == Ok::<Seq<Seq<Datum>>, ErrorView>(
                table.cells(),
            ),
        decreases lines@.len() - k,
    {
        let row = split_fields(lines[k].as_str(), csv);
        let ghost before = table;
        let ghost d = fields(v[k as int], csv);
        proof {
            assert(v[k as int] == lines@[k as int]@);
            assert(string_views(row@) == d);
            if d.len() == n {
                lemma_read_cells(before.columns@, ht, d, d.len());
            }
            assert(data_start(csv) + ((k + 1 - start) as nat) - 1 == k);
            if let Some(p) = before.primary_key {
                assert(before.cells()[p as int] == before.columns@[p as int].values());
            }
        }
        match table.insert(row) {
            Err(e) => {
                proof {
                    assert(import_rows(ht, hk, v, csv, (k + 1 - start) as nat) == Err::<Seq<Seq<Datum>>, ErrorView>(e@));
                    lemma_import_rows_err(ht, hk, v, csv, (k + 1 - start) as nat, data_lines(v, csv));
                }
                return Err(e);
            },
            Ok(()) => {},
        }
        proof {
            crate::table::lemma_same_schema(before, table);
            assert(table.schema().referenced_as_foreign_key.len() == table.referenced_as_foreign_key@.len());
            assert(before.schema().referenced_as_foreign_key.len() == before.referenced_as_foreign_key@.len());
            assert forall|q: int| 0 <= q < n implies {
                &&& (#[trigger] table.columns@[q]).name@ == fields(v[0], csv)[q]
                &&& table.columns@[q].data_type == ht[q]
                &&& table.columns@[q].is_primary_key == hk[q]
                &&& table.columns@[q].foreign_key is None
            } by {
                assert(before.columns@[q].schema() == table.columns@[q].schema());
            }
        }
        k = k + 1;
    }
    proof {
        assert((k - start) as nat == data_lines(v, csv));
    }
    Ok(table)
}

} // verus!
